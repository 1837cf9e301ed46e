use puzzles::memory::{redistribution_cycle, search_loop};
use puzzles::passphrase::{check_anagrams, check_duplicates};

#[test]
fn test_redistribution_cycle() {
    let cases: &[(&[u32], &[u32])] = &[
        (&[0, 2, 7, 0], &[2, 4, 1, 2]),
        (&[2, 4, 1, 2], &[3, 1, 2, 3]),
        (&[0, 2, 3, 4], &[1, 3, 4, 1]),
        (&[1, 3, 4, 1], &[2, 4, 1, 2]),
    ];
    for (bank, output) in cases {
        let mut data = bank.to_vec();
        redistribution_cycle(&mut data);
        assert_eq!(data, *output);
    }
}

#[test]
fn test_search_loop() {
    assert_eq!(search_loop(&[0, 2, 7, 0], 100), Some((5, 4)));
}

#[test]
fn test_search_loop_out_of_fuel() {
    assert_eq!(search_loop(&[0, 2, 7, 0], 3), None);
}

#[test]
fn test_no_duplicates() {
    assert!(check_duplicates(&"aa bb cc dd ee".to_string()));
    assert!(check_duplicates(&"aa bb cc dd aaa".to_string()));
}

#[test]
fn test_has_duplicates() {
    assert!(!check_duplicates(&"aa bb cc dd aa".to_string()));
}

#[test]
fn test_no_anagrams() {
    assert!(check_anagrams(&"abcde fghij".to_string()));
    assert!(check_anagrams(&"a ab abc abd abf abj".to_string()));
    assert!(check_anagrams(&"iiii oiii ooii oooi oooo".to_string()));
}

#[test]
fn test_has_anagrams() {
    assert!(!check_anagrams(&"abcde xyz ecdab".to_string()));
    assert!(!check_anagrams(&"oiii ioii iioi iiio".to_string()));
}
