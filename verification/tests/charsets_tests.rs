use password_crack::CharsetChoice;
use password_crack::charset_digits;
use password_crack::charset_lowercase_letters;
use password_crack::charset_punctuations;
use password_crack::charset_uppercase_letters;
use password_crack::normalize_charset;

#[test]
fn charsets_test1() {
    let number = CharsetChoice::Number;
    assert_eq!(number.label(), "number");
    let number_str = String::from("number");
    assert_eq!(number_str.parse(), Ok(number));
    println!("charset_number_to_string = {:?}", CharsetChoice::to_string());
}

#[test]
fn charset_names_round_trip() {
    for choice in [
        CharsetChoice::Number,
        CharsetChoice::Lower,
        CharsetChoice::Upper,
        CharsetChoice::Special,
    ] {
        let name = choice.label();
        assert_eq!(name.parse::<CharsetChoice>(), Ok(choice));
    }
    assert!("Number".parse::<CharsetChoice>().is_err());
    assert!("".parse::<CharsetChoice>().is_err());
    assert_eq!(CharsetChoice::to_string(), "number,lower,upper,special");
}

#[test]
fn charset_contents() {
    let digits: String = charset_digits().into_iter().collect();
    assert_eq!(digits, "0123456789");
    let lower: String = charset_lowercase_letters().into_iter().collect();
    assert_eq!(lower, "abcdefghijklmnopqrstuvwxyz");
    let upper: String = charset_uppercase_letters().into_iter().collect();
    assert_eq!(upper, "ABCDEFGHIJKLMNOPQRSTUVWXYZ");
    let special: String = charset_punctuations().into_iter().collect();
    assert_eq!(special, " -=!@#$%^&*_+<>/?.;:{}");
    assert_eq!(CharsetChoice::Number.to_charset(), charset_digits());
}

#[test]
fn normalize_sorts_and_dedups() {
    let raw = vec!['b', 'a', 'b', '9', 'a', 'z'];
    let normalized = normalize_charset(&raw);
    assert_eq!(normalized, vec!['9', 'a', 'b', 'z']);
    let empty: Vec<char> = Vec::new();
    assert_eq!(normalize_charset(&empty), empty);
}
