use buffo::Buffo;

#[test]
fn test_trivial() {
    let input: Vec<&str> = vec![];
    let buffo = Buffo::str_array(&input);
    assert_eq!(None, buffo.nth_str(0));
}

#[test]
fn test_roundtrip() {
    let input = vec!["Foo", "Bar", "Hello world"];
    let buffo = Buffo::str_array(&input);
    assert_eq!("Foo", buffo.nth_str(0).unwrap());
    assert_eq!("Bar", buffo.nth_str(1).unwrap());
    assert_eq!("Hello world", buffo.nth_str(2).unwrap());
    assert_eq!(None, buffo.nth_str(3));
}

#[test]
fn test_collect() {
    let input = vec!["Foo", "Bar", "Hello world"];
    let buffo = Buffo::str_array(&input);
    let output: Vec<&str> = buffo.iter_strs();
    assert_eq!(input, output);
}

#[test]
fn test_count_empty() {
    let input: Vec<&str> = vec![];
    let buffo = Buffo::str_array(&input);
    assert_eq!(0, buffo.count());
    assert_eq!(None, buffo.nth_str(0));
    assert!(buffo.iter_strs().is_empty());
    // An empty container is just its count field.
    assert_eq!(&[0u8, 0, 0, 0], buffo.as_bytes());
}

#[test]
fn test_concrete_layout() {
    let input = vec!["Foo", "Bar", "Hello world"];
    let buffo = Buffo::str_array(&input);
    let mut expected: Vec<u8> = vec![
        3, 0, 0, 0, // count = 3
        0, 0, 0, 0, 4, 0, 0, 0, // entry 0: offset 0, length 4
        4, 0, 0, 0, 4, 0, 0, 0, // entry 1: offset 4, length 4
        8, 0, 0, 0, 12, 0, 0, 0, // entry 2: offset 8, length 12
    ];
    expected.extend_from_slice(b"Foo\0Bar\0Hello world\0");
    assert_eq!(expected.as_slice(), buffo.as_bytes());
    assert_eq!(3, buffo.count());
    assert_eq!("Foo", buffo.nth_str(0).unwrap());
    assert_eq!("Bar", buffo.nth_str(1).unwrap());
    assert_eq!("Hello world", buffo.nth_str(2).unwrap());
    assert_eq!(None, buffo.nth_str(3));
}

#[test]
fn test_boundary_indices() {
    let input = vec!["alpha", "beta", "gamma", "delta", "epsilon"];
    let buffo = Buffo::str_array(&input);
    let len = input.len() as u32;
    assert_eq!(input[0], buffo.nth_str(0).unwrap());
    assert_eq!(input[(len / 2) as usize], buffo.nth_str(len / 2).unwrap());
    assert_eq!(input[(len - 1) as usize], buffo.nth_str(len - 1).unwrap());
    assert_eq!(None, buffo.nth_str(len));
}

#[test]
fn test_get_far_out_of_range() {
    let input = vec!["only"];
    let buffo = Buffo::str_array(&input);
    assert_eq!(None, buffo.nth_str(2));
    assert_eq!(None, buffo.nth_str(1000));
    assert_eq!(None, buffo.nth_str(u32::MAX));
}

#[test]
fn test_nul_length_consistency() {
    let input = vec!["Foo", "", "Hello world", "héllo"];
    let buffo = Buffo::str_array(&input);
    let bytes = buffo.as_bytes();
    let count = u32::from_le_bytes(bytes[0..4].try_into().unwrap()) as usize;
    assert_eq!(input.len(), count);
    let blob_start = 4 + count * 8;
    for i in 0..count {
        let entry = 4 + i * 8;
        let offset =
            u32::from_le_bytes(bytes[entry..entry + 4].try_into().unwrap()) as usize;
        let length =
            u32::from_le_bytes(bytes[entry + 4..entry + 8].try_into().unwrap()) as usize;
        let decoded = buffo.nth_str(i as u32).unwrap();
        // The stored length is the decoded string's byte length plus one.
        assert_eq!(decoded.len() + 1, length);
        // The byte just past the string's bytes, inside the blob, is NUL.
        assert_eq!(0u8, bytes[blob_start + offset + length - 1]);
        // The blob holds exactly the string's UTF-8 bytes at the offset.
        assert_eq!(
            decoded.as_bytes(),
            &bytes[blob_start + offset..blob_start + offset + length - 1]
        );
    }
}

#[test]
fn test_unicode_roundtrip() {
    let input = vec!["héllo", "日本語", "🦀", "mixed é日🦀"];
    let buffo = Buffo::str_array(&input);
    let output = buffo.iter_strs();
    assert_eq!(input, output);
    for (i, s) in input.iter().enumerate() {
        assert_eq!(*s, buffo.nth_str(i as u32).unwrap());
    }
    // Multi-byte entries store UTF-8 byte lengths, not character counts:
    // "é" is two bytes plus the NUL terminator.
    let single = Buffo::str_array(&vec!["é"]);
    let expected: Vec<u8> = vec![
        1, 0, 0, 0, // count = 1
        0, 0, 0, 0, 3, 0, 0, 0, // entry 0: offset 0, length 3
        0xc3, 0xa9, 0, // blob: "é" in UTF-8, then NUL
    ];
    assert_eq!(expected.as_slice(), single.as_bytes());
}

#[test]
fn test_empty_string_entries() {
    let input = vec!["", "a", ""];
    let buffo = Buffo::str_array(&input);
    assert_eq!(3, buffo.count());
    assert_eq!("", buffo.nth_str(0).unwrap());
    assert_eq!("a", buffo.nth_str(1).unwrap());
    assert_eq!("", buffo.nth_str(2).unwrap());
    assert_eq!(None, buffo.nth_str(3));
    assert_eq!(input, buffo.iter_strs());
}

#[test]
fn test_idempotent() {
    let input = vec!["Foo", "Bar", "Hello world"];
    let buffo = Buffo::str_array(&input);
    let first = buffo.iter_strs();
    let second = buffo.iter_strs();
    assert_eq!(first, second);
    for i in 0..4u32 {
        assert_eq!(buffo.nth_str(i), buffo.nth_str(i));
    }
    // The buffer itself is untouched by reads.
    let before = buffo.as_bytes().to_vec();
    let _ = buffo.iter_strs();
    let _ = buffo.nth_str(1);
    assert_eq!(before.as_slice(), buffo.as_bytes());
}
