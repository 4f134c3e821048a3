//! Tests of the Punycode encoder and the label-based domain names.

use rustdns::punycode;
use rustdns::Name;

// A set of test cases.
// Shout out to https://r12a.github.io/app-conversion/ which helped validate some of the unicode.
static TESTS: [(&str, &str, &str); 47] = [
    ("\u{644}\u{64a}\u{647}\u{645}\u{627}\u{628}\u{62a}\u{643}\u{644}\u{645}\u{648}\u{634}\u{639}\u{631}\u{628}\u{64a}\u{61f}", "egbpdaj6bu4bxfgehfvwxn", "Arabic (Egyptian)"),
    ("\u{4ed6}\u{4eec}\u{4e3a}\u{4ec0}\u{4e48}\u{4e0d}\u{8bf4}\u{4e2d}\u{6587}", "ihqwcrb4cv8a8dqg056pqjye", "Chinese (simplified)"),
    ("\u{4ed6}\u{5011}\u{7232}\u{4ec0}\u{9ebd}\u{4e0d}\u{8aaa}\u{4e2d}\u{6587}", "ihqwctvzc91f659drss3x8bo0yb", "Chinese (traditional)"),
    ("Pro\u{10d}prost\u{11b}nemluv\u{ed}\u{10d}esky", "Proprostnemluvesky-uyb24dma41a", "Czech"),
    ("\u{5dc}\u{5de}\u{5d4}\u{5d4}\u{5dd}\u{5e4}\u{5e9}\u{5d5}\u{5d8}\u{5dc}\u{5d0}\u{5de}\u{5d3}\u{5d1}\u{5e8}\u{5d9}\u{5dd}\u{5e2}\u{5d1}\u{5e8}\u{5d9}\u{5ea}", "4dbcagdahymbxekheh6e0a7fei0b", "Hebrew"),
    ("\u{92f}\u{939}\u{932}\u{94b}\u{917}\u{939}\u{93f}\u{928}\u{94d}\u{926}\u{940}\u{915}\u{94d}\u{92f}\u{94b}\u{902}\u{928}\u{939}\u{940}\u{902}\u{92c}\u{94b}\u{932}\u{938}\u{915}\u{924}\u{947}\u{939}\u{948}\u{902}", "i1baa7eci9glrd9b2ae1bj0hfcgg6iyaf8o0a1dig0cd", "Hindi (Devanagari)"),
    ("\u{306a}\u{305c}\u{307f}\u{3093}\u{306a}\u{65e5}\u{672c}\u{8a9e}\u{3092}\u{8a71}\u{3057}\u{3066}\u{304f}\u{308c}\u{306a}\u{3044}\u{306e}\u{304b}", "n8jok5ay5dzabd5bym9f0cm5685rrjetr6pdxa", "Japanese (kanji and hiragana)"),
    ("\u{c138}\u{acc4}\u{c758}\u{baa8}\u{b4e0}\u{c0ac}\u{b78c}\u{b4e4}\u{c774}\u{d55c}\u{ad6d}\u{c5b4}\u{b97c}\u{c774}\u{d574}\u{d55c}\u{b2e4}\u{ba74}\u{c5bc}\u{b9c8}\u{b098}\u{c88b}\u{c744}\u{ae4c}", "989aomsvi5e83db1d2a355cv1e0vak1dwrv93d5xbh15a0dt30a5jpsd879ccm6fea98c", "Korean (Hangul syllables)"),
    ("\u{43f}\u{43e}\u{447}\u{435}\u{43c}\u{443}\u{436}\u{435}\u{43e}\u{43d}\u{438}\u{43d}\u{435}\u{433}\u{43e}\u{432}\u{43e}\u{440}\u{44f}\u{442}\u{43f}\u{43e}\u{440}\u{443}\u{441}\u{441}\u{43a}\u{438}", "b1abfaaepdrnnbgefbadotcwatmq2g4l", "Russian (Cyrillic)"),
    ("Porqu\u{e9}nopuedensimplementehablarenEspa\u{f1}ol", "PorqunopuedensimplementehablarenEspaol-fmd56a", "Spanish"),
    ("T\u{1ea1}isaoh\u{1ecd}kh\u{f4}ngth\u{1ec3}ch\u{1ec9}n\u{f3}iti\u{1ebf}ngVi\u{1ec7}t", "TisaohkhngthchnitingVit-kjcr8268qyxafd2f1b9g", "Vietnamese"),
    ("3\u{5e74}B\u{7d44}\u{91d1}\u{516b}\u{5148}\u{751f}", "3B-ww4c5e180e575a65lsy2b", "3<nen>B<gumi><kinpachi><sensei>"),
    ("\u{5b89}\u{5ba4}\u{5948}\u{7f8e}\u{6075}-with-SUPER-MONKEYS", "-with-SUPER-MONKEYS-pc58ag80a8qai00g7n9n", "<amuro><namie>-with-SUPER-MONKEYS"),
    ("Hello-Another-Way-\u{305d}\u{308c}\u{305e}\u{308c}\u{306e}\u{5834}\u{6240}", "Hello-Another-Way--fc4qua05auwb3674vfr0b", "Hello-Another-Way-<sorezore><no><basho>"),
    ("\u{3072}\u{3068}\u{3064}\u{5c4b}\u{6839}\u{306e}\u{4e0b}2", "2-u9tlzr9756bt3uc0v", "<hitotsu><yane><no><shita>2"),
    ("Maji\u{3067}Koi\u{3059}\u{308b}5\u{79d2}\u{524d}", "MajiKoi5-783gue6qz075azm5e", "Maji<de>Koi<suru>5<byou><mae>"),
    ("\u{30d1}\u{30d5}\u{30a3}\u{30fc}de\u{30eb}\u{30f3}\u{30d0}", "de-jg4avhby1noc0d", "<pafii>de<runba>"),
    ("\u{305d}\u{306e}\u{30b9}\u{30d4}\u{30fc}\u{30c9}\u{3067}", "d9juau41awczczp", "<sono><supiido><de>"),
    ("b\u{fc}cher", "bcher-kva", "Simple wikipedia example."),
    ("", "", "The empty string."),
    ("a", "a-", "Only ASCII characters, one, lowercase."),
    ("A", "A-", "Only ASCII characters, one, uppercase."),
    ("3", "3-", "Only ASCII characters, one, a digit."),
    ("-", "--", "Only ASCII characters, one, a hyphen."),
    ("--", "---", "Only ASCII characters, two hyphens."),
    ("London", "London-", "Only ASCII characters, more than one, no hyphens."),
    ("Lloyd-Atkinson", "Lloyd-Atkinson-", "Only ASCII characters, one hyphen."),
    ("This has spaces", "This has spaces-", "Only ASCII characters, with spaces."),
    ("-> $1.00 <-", "-> $1.00 <--", "Only ASCII characters, mixed symbols."),
    ("\u{fc}", "tda", "No ASCII characters, one Latin-1 Supplement character."),
    ("\u{3b1}", "mxa", "No ASCII characters, one Greek character."),
    ("\u{4f8b}", "fsq", "No ASCII characters, one CJK character."),
    ("\u{1f609}", "n28h", "No ASCII characters, one emoji character."),
    ("\u{3b1}\u{3b2}\u{3b3}", "mxacd", "No ASCII characters, more than one character."),
    ("M\u{fc}nchen", "Mnchen-3ya", "Mixed string, with one character that is not an ASCII character."),
    ("Mnchen-3ya", "Mnchen-3ya-", "Double-encoded Punycode of \"M\u{c3}\u{bc}nchen\"."),
    ("M\u{fc}nchen-Ost", "Mnchen-Ost-9db", "Mixed string, with one character that is not ASCII, and a hyphen."),
    ("Bahnhof M\u{fc}nchen-Ost", "Bahnhof Mnchen-Ost-u6b", "Mixed string, with one space, one hyphen, and one character that is not ASCII."),
    ("ab\u{e6}cd\u{f6}ef", "abcdef-qua4k", "Mixed string, two non-ASCII characters."),
    ("\u{43f}\u{440}\u{430}\u{432}\u{434}\u{430}", "80aafi6cg", "Russian, without ASCII."),
    ("\u{e22}\u{e08}\u{e06}\u{e1f}\u{e04}\u{e0f}\u{e02}", "22cdfh1b8fsa", "Thai, without ASCII."),
    ("\u{b3c4}\u{ba54}\u{c778}", "hq1bm8jm9l", "Korean, without ASCII."),
    ("\u{30c9}\u{30e1}\u{30a4}\u{30f3}\u{540d}\u{4f8b}", "eckwd4c7cu47r2wf", "Japanese, without ASCII."),
    ("Maji\u{3067}Koi\u{3059}\u{308b}5\u{79d2}\u{524d}", "MajiKoi5-783gue6qz075azm5e", "Japanese with ASCII."),
    ("\u{300c}b\u{fc}cher\u{300d}", "bcher-kva8445foa", "Mixed non-ASCII scripts (Latin-1 Supplement and CJK)."),
    ("\u{263a}", "74h", "Smiling Face."),
    ("i\u{2764}", "i-7iq", "i\u{e2}\u{a4}\u{ef}\u{b8}.ws"),
];

#[test]
pub fn test_encode() {
    for test in TESTS {
        assert_eq!(punycode::encode(test.0).unwrap(), test.1);
    }
}


#[test]
fn name_test_from_str() {
    assert_eq!(
        punycode::encode("acad\u{e9}mie-fran\u{e7}aise").unwrap(),
        "acadmie-franaise-npb1a"
    );

    assert_eq!(Name::from_str("").unwrap().to_string(), ".");
    assert_eq!(Name::from_str("com").unwrap().to_string(), "com.");
    assert_eq!(Name::from_str("com.").unwrap().to_string(), "com.");
    assert_eq!(Name::from_str("a.b.com").unwrap().to_string(), "a.b.com.");
    assert_eq!(Name::from_str("a.b.com.").unwrap().to_string(), "a.b.com.");
}

#[test]
fn test_name_wf_bounds() {
    // one label of 63 characters is fine; 64 is rejected
    let l63 = "a".repeat(63);
    let l64 = "a".repeat(64);
    assert!(Name::from_str(&l63).is_ok());
    assert!(Name::from_str(&l64).is_err());
    // empty labels are rejected
    assert!(Name::from_str("a..b").is_err());
    assert!(Name::from_str(".").is_err());
    // a whole name longer than 253 characters is rejected
    let long = format!("{}.{}.{}.{}.{}", l63, l63, l63, l63, "a".repeat(10));
    assert!(Name::from_str(&long).is_err());
}

#[test]
fn test_name_from_label_slice() {
    assert_eq!(
        Name::from_label_slice(b"a.b.com").unwrap().to_string(),
        "a.b.com."
    );
    assert!(Name::from_label_slice(&[0xFF, 0xFE]).is_err());
}

#[test]
fn test_punycode_ascii_passthrough() {
    // all-ASCII input keeps its characters and gains the delimiter
    assert_eq!(punycode::encode("plain").unwrap(), "plain-");
    assert_eq!(punycode::encode("").unwrap(), "");
}

#[test]
fn test_digit_maps() {
    assert_eq!(punycode::to_char(0), 'a');
    assert_eq!(punycode::to_char(25), 'z');
    assert_eq!(punycode::to_char(26), '0');
    assert_eq!(punycode::to_char(35), '9');
    assert_eq!(punycode::from_char('A'), 0);
    assert_eq!(punycode::from_char('z'), 25);
    assert_eq!(punycode::from_char('9'), 35);
}

#[test]
fn test_adapt_bias() {
    // the very first delta of the simple Wikipedia example ("ü")
    assert_eq!(punycode::adapt(252, 2, true), 0);
    // a later adaptation divides by two instead of damping
    assert_eq!(punycode::adapt(252, 2, false), 29);
}
