use notefile::NoteError;
use notefile::codec::{decode, encode};
use notefile::types::{Note, Notes};

fn sample() -> Notes {
    Notes(vec![
        Note {
            id: "a".to_string(),
            title: "Groceries".to_string(),
            body: "milk, eggs".to_string(),
            edited: 0,
            created: 1700000000,
            tags: vec!["food".to_string(), "urgent".to_string()],
        },
        Note {
            id: "".to_string(),
            title: "".to_string(),
            body: "señal — ∂x".to_string(),
            edited: -5,
            created: 0,
            tags: vec![],
        },
    ])
}

#[test]
fn round_trip_preserves_every_field() {
    let nf = sample();
    let bytes = encode(&nf);
    let back = decode(&bytes).unwrap();
    assert_eq!(back, nf);
}

#[test]
fn round_trip_of_empty_notefile() {
    let nf = Notes::new();
    let back = decode(&encode(&nf)).unwrap();
    assert_eq!(back.0.len(), 0);
}

#[test]
fn decode_rejects_garbage() {
    let r = decode(&vec![1, 2, 3]);
    assert_eq!(r, Err(NoteError::FormatError));
}

#[test]
fn decode_rejects_wrong_magic() {
    let mut bytes = encode(&sample());
    bytes[0] = 0x00;
    assert_eq!(decode(&bytes), Err(NoteError::FormatError));
}

#[test]
fn decode_rejects_truncated_input() {
    let bytes = encode(&sample());
    let cut = bytes[..bytes.len() - 1].to_vec();
    assert_eq!(decode(&cut), Err(NoteError::FormatError));
}

#[test]
fn decode_rejects_trailing_bytes() {
    let mut bytes = encode(&sample());
    bytes.push(0);
    assert_eq!(decode(&bytes), Err(NoteError::FormatError));
}

#[test]
fn encoding_is_deterministic() {
    assert_eq!(encode(&sample()), encode(&sample()));
}
