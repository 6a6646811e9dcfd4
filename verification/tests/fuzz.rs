use simpile::fuzz::{AllocatorMethod, Method};

#[test]
fn identity_serialization() {
    let methods = vec![
        Method::Alloc { size: 1, align: 1 },
        Method::Realloc {
            index: 0,
            new_size: 2,
        },
        Method::Dealloc { index: 0 },
    ];
    assert_eq!(Method::from_bytes(&Method::to_bytes(&methods)), methods);
}

#[test]
fn encoding_is_byte_exact() {
    let bytes = Method::to_bytes(&[
        Method::Alloc { size: 0x0102, align: 64 },
        Method::Dealloc { index: 3 },
        Method::Realloc { index: 1, new_size: 0x1_0000_0000 },
    ]);
    assert_eq!(
        bytes,
        vec![
            0, 2, 1, 0, 0, 0, 0, 0, 0, 6, //
            1, 3, 0, 0, 0, 0, 0, 0, 0, //
            2, 1, 0, 0, 0, 0, 0, 0, 0, 0, 0, 0, 0, 1, 0, 0, 0,
        ]
    );
}

#[test]
fn decoding_reduces_kind_and_alignment() {
    // kind 3 is kind 0, alignment byte 12 is 12 % 11 = 1
    let methods = Method::from_bytes(&[3, 5, 0, 0, 0, 0, 0, 0, 0, 12]);
    assert_eq!(methods, vec![Method::Alloc { size: 5, align: 2 }]);
    // kind 4 is kind 1, kind 5 is kind 2
    let methods = Method::from_bytes(&[
        4, 9, 0, 0, 0, 0, 0, 0, 0, //
        5, 1, 0, 0, 0, 0, 0, 0, 0, 8, 0, 0, 0, 0, 0, 0, 0,
    ]);
    assert_eq!(
        methods,
        vec![Method::Dealloc { index: 9 }, Method::Realloc { index: 1, new_size: 8 }]
    );
    // the largest alignment is 2^10
    let methods = Method::from_bytes(&[0, 1, 0, 0, 0, 0, 0, 0, 0, 10]);
    assert_eq!(methods, vec![Method::Alloc { size: 1, align: 1024 }]);
}

#[test]
fn decoding_stops_at_a_call_cut_short() {
    assert_eq!(Method::from_bytes(&[]), vec![]);
    assert_eq!(Method::from_bytes(&[0, 1, 0, 0, 0, 0, 0, 0, 0]), vec![]);
    assert_eq!(
        Method::from_bytes(&[1, 7, 0, 0, 0, 0, 0, 0, 0, 2, 0, 0]),
        vec![Method::Dealloc { index: 7 }]
    );
}

#[test]
fn plain_scripts_round_trip() {
    let methods = vec![
        AllocatorMethod::Alloc { size: 10 },
        AllocatorMethod::Realloc { index: 0, new_size: 20 },
        AllocatorMethod::Dealloc { index: 0 },
    ];
    let bytes = AllocatorMethod::to_bytes(&methods);
    assert_eq!(bytes.len(), 9 + 17 + 9);
    assert_eq!(bytes[0], 0);
    assert_eq!(bytes[1], 10);
    assert_eq!(bytes[9], 2);
    assert_eq!(bytes[18], 20);
    assert_eq!(bytes[26], 1);
    assert_eq!(AllocatorMethod::from_bytes(&bytes), methods);
    assert_eq!(AllocatorMethod::from_bytes(&bytes[..30]).len(), 2);
}
