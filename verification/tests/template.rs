use formatx::Template;
use formatx::Value;

fn render1(template: &str, v: Value) -> String {
    let mut t = Template::new(template).unwrap();
    t.replace_positional(&v);
    t.text().unwrap()
}

#[test]
fn text() {
    assert_eq!(Template::new("Hello").unwrap().text().unwrap(), "Hello");
}

#[test]
fn positional() {
    assert_eq!(
        render1("Hello, {}!", Value::Str("world".to_string())),
        "Hello, world!"
    );
    assert_eq!(render1("The number is {}", Value::Int(1)), "The number is 1");
    let mut t = Template::new("{} {}").unwrap();
    t.replace_positional(&Value::Int(1));
    t.replace_positional(&Value::Int(2));
    assert_eq!(t.text().unwrap(), "1 2");
}

#[test]
fn named() {
    let mut t = Template::new("{value}").unwrap();
    t.replace("value", &Value::Int(4));
    assert_eq!(t.text().unwrap(), "4");

    let mut t = Template::new("{argument}").unwrap();
    t.replace("argument", &Value::Str("test".to_string()));
    assert_eq!(t.text().unwrap(), "test");

    let mut t = Template::new("{a} {c} {b}").unwrap();
    t.replace("a", &Value::Str("a".to_string()));
    t.replace("b", &Value::Char('b'));
    t.replace("c", &Value::Int(3));
    assert_eq!(t.text().unwrap(), "a 3 b");
}

#[test]
fn intermixed() {
    let mut t = Template::new("{name} {}").unwrap();
    t.replace_positional(&Value::Int(1));
    t.replace("name", &Value::Int(2));
    assert_eq!(t.text().unwrap(), "2 1");
}

#[test]
fn width() {
    assert_eq!(
        render1("Hello {:5}!", Value::Str("x".to_string())),
        "Hello x    !"
    );
    assert_eq!(render1("Hello {:05}!", Value::Int(-5)), "Hello -0005!");
}

#[test]
fn zero_width() {
    assert_eq!(render1("{:04}", Value::Int(42)), "0042");
    assert_eq!(render1("Hello {:05}!", Value::Int(5)), "Hello 00005!");
}

#[test]
fn align() {
    assert_eq!(
        render1("Hello {:<5}!", Value::Str("x".to_string())),
        "Hello x    !"
    );
    assert_eq!(
        render1("Hello {:-<5}!", Value::Str("x".to_string())),
        "Hello x----!"
    );
    assert_eq!(
        render1("Hello {:^5}!", Value::Str("x".to_string())),
        "Hello   x  !"
    );
    assert_eq!(
        render1("Hello {:>5}!", Value::Str("x".to_string())),
        "Hello     x!"
    );
}

#[test]
fn sign() {
    assert_eq!(render1("Hello {:+}!", Value::Int(5)), "Hello +5!");
}

#[test]
fn precision() {
    let mut t = Template::new("Hello {0} is {1:.5}").unwrap();
    t.replace("0", &Value::Str("x".to_string()));
    t.replace("1", &Value::Decimal("0.01".to_string()));
    assert_eq!(t.text().unwrap(), "Hello x is 0.01000");
}

#[test]
fn escaping() {
    assert_eq!(Template::new("Hello {{}}").unwrap().text().unwrap(), "Hello {}");
    assert_eq!(Template::new("{{ Hello").unwrap().text().unwrap(), "{ Hello");
}

#[test]
fn debug() {
    let mut t = Template::new("{} {:?}").unwrap();
    t.replace_positional(&Value::Int(3));
    t.replace_positional(&Value::Int(4));
    assert_eq!(t.text().unwrap(), "3 4");

    let mut t = Template::new("{} {:?}").unwrap();
    t.replace_positional(&Value::Char('a'));
    t.replace_positional(&Value::Char('b'));
    assert_eq!(t.text().unwrap(), "a 'b'");

    let mut t = Template::new("{} {:?}").unwrap();
    t.replace_positional(&Value::Str("foo\n".to_string()));
    t.replace_positional(&Value::Str("bar\n".to_string()));
    assert_eq!(t.text().unwrap(), "foo\n \"bar\\n\"");
}

#[test]
fn trailing_commas() {
    assert_eq!(Template::new("Hello").unwrap().text().unwrap(), "Hello");

    assert_eq!(
        render1("Hello {}", Value::Str("world".to_string())),
        "Hello world"
    );

    let mut t = Template::new("Hello {1} {0}").unwrap();
    t.replace_positional(&Value::Str("1".to_string()));
    t.replace_positional(&Value::Str("0".to_string()));
    assert_eq!(t.text().unwrap(), "Hello 0 1");

    let mut t = Template::new("Hello {name}").unwrap();
    t.replace("name", &Value::Str("John".to_string()));
    assert_eq!(t.text().unwrap(), "Hello John");
}
