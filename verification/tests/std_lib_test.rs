//! Behaviour of the standard-library pieces the server builds on.
use std::borrow::Cow;
use std::ops::Deref;

#[derive(Debug, PartialEq, Eq, PartialOrd)]
enum Gender {
    Male(Male),
    Female(Female),
}

#[derive(Debug, PartialEq, Eq, PartialOrd)]
struct Male(String);

impl Male {
    pub fn new(name: &str) -> Male {
        Male(name.into())
    }
}

impl Deref for Male {
    type Target = String;

    fn deref(&self) -> &Self::Target {
        &self.0
    }
}

#[derive(Debug, PartialEq, Eq, PartialOrd)]
struct Female {}

impl From<Female> for Gender {
    fn from(value: Female) -> Self {
        Gender::Female(value)
    }
}

impl From<Male> for Gender {
    fn from(value: Male) -> Self {
        Gender::Male(value)
    }
}

#[test]
fn test_enum_into() {
    let _gender: Gender = Male::new("tom").into();

    let _gender = Gender::from(Male::new("jack"));
}

#[test]
fn test_string_utf8() {
    let origin_string = "hello world \x77";
    let cow = String::from_utf8_lossy(origin_string.as_bytes());

    println!("{}", cow.to_string());

    let bytes = [0x61, 0x73, 0x63, 0x69, 0xC3, 0xBF];

    let res = String::from_utf8_lossy(&bytes);
    println!("{}", res.to_string());
}

#[test]
fn test_from_utf8_lossy_cow() {
    let bytes = b"hello world";
    let s = String::from_utf8_lossy(bytes);

    if let Cow::Borrowed(s) = s {
        println!("s is a slice: {}", s);
    } else {
        println!("s is owned: {}", s)
    }
}

#[test]
fn test_ok_or() {
    let x = Some("foo");
    assert_eq!(x.ok_or(0), Ok("foo"));

    let x: Option<&str> = None;
    assert_eq!(x.ok_or(0), Err(0));
}

#[test]
fn test_ref() {
    let x = 5;

    match x {
        ref r => println!("r: {}", r),
    }

    let x = Box::new(5i32);
    let y: &i32 = &x;
    println!("{}", y);

    let x1 = x.as_ref();
    println!("{}", x1);
}

fn is_hello<T: AsRef<str>>(s: T) {
    assert_eq!("hello", s.as_ref());
}

#[test]
fn test_is_hello() {
    let s = "hello";

    is_hello(s);

    let s = "hello".to_string();
    is_hello(s);
}

#[test]
fn test_string_to_bytes() {
    let res = b"set";
    println!("{:?}", res);
}
