use margolus::codec::BlockInt;
use margolus::permutation::PermutationArray;
use margolus::permutation_string::{ConversionError, PermutationIndex, PermutationInt, PermutationString};

fn arr(values: &[u8]) -> PermutationArray {
    PermutationArray(values.iter().map(|&v| BlockInt(v)).collect())
}

#[test]
fn index() {
    let cases: &[(&[u8], &[u8])] = &[
        (&[1, 2, 3], &[0, 0, 0]),
        (&[1, 3, 2], &[0, 1, 0]),
        (&[2, 1, 3], &[1, 0, 0]),
        (&[2, 3, 1], &[1, 1, 0]),
        (&[3, 1, 2], &[2, 0, 0]),
        (&[3, 2, 1], &[2, 1, 0]),
    ];
    for (array, index) in cases {
        assert_eq!(arr(array).to_index(), Ok(PermutationIndex(index.to_vec())));
        assert_eq!(
            PermutationIndex(index.to_vec()).to_array(),
            Ok(arr(array))
        );
    }
}

#[test]
fn number() {
    let cases: &[(&[u8], u64)] = &[
        (&[0, 0, 0], 0),
        (&[0, 1, 0], 1),
        (&[1, 0, 0], 2),
        (&[1, 1, 0], 3),
        (&[2, 0, 0], 4),
        (&[2, 1, 0], 5),
    ];
    for (index, value) in cases {
        let int = PermutationIndex(index.to_vec()).to_int().unwrap();
        assert_eq!(int.permutation_size, 3);
        assert_eq!(int.to_u64(), Some(*value));
        assert_eq!(
            PermutationInt::from_u64(*value, 3).to_index(),
            Ok(PermutationIndex(index.to_vec()))
        );
    }
}

#[test]
fn string() {
    let cases: &[(u64, &str)] = &[(0, "a"), (1, "b"), (2, "c"), (3, "d"), (4, "e"), (5, "f")];
    for (value, text) in cases {
        let written = PermutationInt::from_u64(*value, 3).to_permutation_string();
        assert_eq!(
            written,
            PermutationString { string: text.to_string(), permutation_size: 3 }
        );
        let read = written.to_int().unwrap();
        assert_eq!(read.to_u64(), Some(*value));
        assert_eq!(read.permutation_size, 3);
    }
}

#[test]
fn string_of_two_letters() {
    // 26 is written "ba": 1 * 26 + 0.
    let int = PermutationInt::from_u64(26, 10);
    assert_eq!(int.to_permutation_string().string, "ba");
    // 703 is written "bb" with one letter carrying 26^1: 1 * 676 would be
    // "baa"; check a three-letter value too.
    let int = PermutationInt::from_u64(676, 10);
    assert_eq!(int.to_permutation_string().string, "baa");
}

#[test]
fn string_beyond_machine_words() {
    // Twenty 'z' letters name a number far beyond 64 bits; the round trip
    // through the big integer must reproduce the exact string.
    let text = "z".repeat(20);
    let named = PermutationString { string: text.clone(), permutation_size: 21 };
    let int = named.to_int().unwrap();
    assert_eq!(int.to_u64(), None);
    let back = int.to_permutation_string();
    assert_eq!(back.string, text);
    assert_eq!(back.permutation_size, 21);
}

#[test]
fn index_rejects_bad_digit() {
    // Digit 0 of a three-element code must be below 3.
    let idx = PermutationIndex(vec![3, 0, 0]);
    assert_eq!(idx.to_array(), Err(ConversionError::NotPermutationIndex));
    assert_eq!(
        idx.to_int().unwrap_err(),
        ConversionError::NotPermutationIndex
    );
}

#[test]
fn array_rejects_non_permutations() {
    // A repeated value.
    assert_eq!(
        arr(&[1, 1, 3]).to_index(),
        Err(ConversionError::NotPermutationArray)
    );
    // A value out of range: this naming numbers values from 1 to the length.
    assert_eq!(
        arr(&[1, 2, 4]).to_index(),
        Err(ConversionError::NotPermutationArray)
    );
    assert_eq!(
        arr(&[0, 1, 2]).to_index(),
        Err(ConversionError::NotPermutationArray)
    );
}

#[test]
fn int_too_large_for_size() {
    // 3! == 6 permutations exist, so 6 has no code while 5 does.
    assert_eq!(
        PermutationInt::from_u64(6, 3).to_index(),
        Err(ConversionError::IntTooLarge)
    );
    assert_eq!(
        PermutationInt::from_u64(5, 3).to_index(),
        Ok(PermutationIndex(vec![2, 1, 0]))
    );
}

#[test]
fn string_rejects_bad_text() {
    let empty = PermutationString { string: String::new(), permutation_size: 3 };
    assert_eq!(empty.to_int().unwrap_err(), ConversionError::NotLetters);
    let upper = PermutationString { string: "Abc".to_string(), permutation_size: 3 };
    assert_eq!(upper.to_int().unwrap_err(), ConversionError::NotLetters);
}

#[test]
fn array_round_trip_through_all_namings() {
    // Array -> index -> int -> string -> int -> index -> array.
    let original = arr(&[3, 1, 4, 2]);
    let index = original.to_index().unwrap();
    let int = index.to_int().unwrap();
    let text = int.to_permutation_string();
    let int_back = text.to_int().unwrap();
    let index_back = int_back.to_index().unwrap();
    assert_eq!(index_back, index);
    assert_eq!(index_back.to_array(), Ok(original));
}
