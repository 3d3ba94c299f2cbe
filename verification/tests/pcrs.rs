use pcr_combine::errors::CombineError;
use pcr_combine::events::TPMEvent;
use pcr_combine::pcrs::{compile_pcrs, Part, Pcr};

#[test]
fn test_part_from_tpmevent() {
    let input = TPMEvent {
        name: "FOOBAR".into(),
        pcr: 255,
        hash: vec![0, 1, 2, 3, 4, 5, 6, 7, 8],
        id: 0,
    };
    let expected = Part {
        name: "FOOBAR".into(),
        hash: vec![0, 1, 2, 3, 4, 5, 6, 7, 8],
    };

    let res: Part = Part::from_event(&input);

    assert_eq!(res, expected);
}

#[test]
fn test_pcr_compilation_from_tpmevents() {
    let input = vec![
        TPMEvent {
            name: "FOOBAR".into(),
            pcr: 4,
            hash: vec![
                0, 0, 0, 0, 0, 0, 0, 0, 0, 0, 0, 0, 1, 0, 0, 0, 0, 0, 0, 0, 0, 0, 0, 0, 0, 0, 0, 0,
                0, 0, 0, 0,
            ],
            id: 0,
        },
        TPMEvent {
            name: "BARFOO".into(),
            pcr: 4,
            hash: vec![
                0, 0, 0, 0, 0, 0, 0, 0, 0, 0, 0, 0, 0, 0, 0, 0, 0, 0, 0, 0, 0, 0, 0, 0, 0, 0, 0, 0,
                0, 0, 0, 1,
            ],
            id: 1,
        },
    ];
    let expected = Pcr {
        id: 4,
        value: vec![
            65, 62, 10, 52, 9, 169, 42, 229, 47, 108, 155, 208, 62, 239, 192, 64, 254, 216, 40,
            213, 49, 150, 204, 191, 240, 146, 157, 233, 235, 71, 46, 91,
        ],
        parts: vec![
            Part {
                name: "FOOBAR".into(),
                hash: vec![
                    0, 0, 0, 0, 0, 0, 0, 0, 0, 0, 0, 0, 1, 0, 0, 0, 0, 0, 0, 0, 0, 0, 0, 0, 0, 0,
                    0, 0, 0, 0, 0, 0,
                ],
            },
            Part {
                name: "BARFOO".into(),
                hash: vec![
                    0, 0, 0, 0, 0, 0, 0, 0, 0, 0, 0, 0, 0, 0, 0, 0, 0, 0, 0, 0, 0, 0, 0, 0, 0, 0,
                    0, 0, 0, 0, 0, 1,
                ],
            },
        ],
    };

    let res = Pcr::compile_from(&input).unwrap();

    assert_eq!(res, expected);
}

#[test]
fn test_pcr_compilation_from_heterogeneous_vec() {
    let input = vec![
        TPMEvent {
            name: "FOOBAR".into(),
            pcr: 4,
            hash: vec![
                0, 0, 0, 0, 0, 0, 0, 0, 0, 0, 0, 0, 1, 0, 0, 0, 0, 0, 0, 0, 0, 0, 0, 0, 0, 0, 0, 0,
                0, 0, 0, 0,
            ],
            id: 0,
        },
        TPMEvent {
            name: "BARFOO".into(),
            pcr: 7,
            hash: vec![
                0, 0, 0, 0, 0, 0, 0, 0, 0, 0, 0, 0, 0, 0, 0, 0, 0, 0, 0, 0, 0, 0, 0, 0, 0, 0, 0, 0,
                0, 0, 0, 1,
            ],
            id: 1,
        },
    ];

    let expected = vec![
        Pcr {
            id: 4,
            value: vec![
                78, 5, 240, 197, 137, 1, 49, 110, 26, 17, 206, 213, 73, 16, 170, 53, 124, 15, 18,
                16, 159, 35, 230, 209, 16, 42, 161, 172, 36, 158, 227, 74,
            ],
            parts: vec![Part {
                name: "FOOBAR".into(),
                hash: vec![
                    0, 0, 0, 0, 0, 0, 0, 0, 0, 0, 0, 0, 1, 0, 0, 0, 0, 0, 0, 0, 0, 0, 0, 0, 0, 0,
                    0, 0, 0, 0, 0, 0,
                ],
            }],
        },
        Pcr {
            id: 7,
            value: vec![
                144, 244, 179, 149, 72, 223, 85, 173, 97, 135, 161, 210, 13, 115, 30, 206, 231,
                140, 84, 91, 148, 175, 209, 111, 66, 239, 117, 146, 217, 156, 211, 101,
            ],
            parts: vec![Part {
                name: "BARFOO".into(),
                hash: vec![
                    0, 0, 0, 0, 0, 0, 0, 0, 0, 0, 0, 0, 0, 0, 0, 0, 0, 0, 0, 0, 0, 0, 0, 0, 0, 0,
                    0, 0, 0, 0, 0, 1,
                ],
            }],
        },
    ];

    let res = compile_pcrs(&input);

    assert_eq!(res, expected);
}

fn event(id: usize, pcr: u8, byte: u8, name: &str) -> TPMEvent {
    let mut hash = vec![0u8; 32];
    hash[0] = byte;
    TPMEvent {
        name: name.into(),
        pcr,
        hash,
        id,
    }
}

#[test]
fn compilation_is_deterministic() {
    let input = vec![event(0, 4, 1, "A"), event(1, 4, 2, "B")];
    let first = Pcr::compile_from(&input).unwrap();
    let second = Pcr::compile_from(&input).unwrap();
    assert_eq!(first, second);
}

#[test]
fn compilation_is_order_sensitive() {
    let forward = vec![event(0, 4, 1, "A"), event(1, 4, 2, "B")];
    let backward = vec![event(1, 4, 2, "B"), event(0, 4, 1, "A")];
    let first = Pcr::compile_from(&forward).unwrap();
    let second = Pcr::compile_from(&backward).unwrap();
    assert_ne!(first.value, second.value);
}

#[test]
fn grouped_compilation_matches_manual_split() {
    let mixed = vec![
        event(0, 4, 1, "A"),
        event(1, 7, 2, "B"),
        event(2, 4, 3, "C"),
        event(3, 7, 4, "D"),
    ];
    let res = compile_pcrs(&mixed);
    assert_eq!(res.len(), 2);
    // first-seen register ordering
    assert_eq!(res[0].id, 4);
    assert_eq!(res[1].id, 7);
    let group4 = vec![event(0, 4, 1, "A"), event(2, 4, 3, "C")];
    let group7 = vec![event(1, 7, 2, "B"), event(3, 7, 4, "D")];
    assert_eq!(res[0], Pcr::compile_from(&group4).unwrap());
    assert_eq!(res[1], Pcr::compile_from(&group7).unwrap());
}

#[test]
fn mismatched_register_is_reported() {
    let input = vec![event(0, 4, 1, "FOOBAR"), event(1, 7, 2, "BARFOO")];
    let res = Pcr::compile_from(&input);
    assert_eq!(
        res,
        Err(CombineError::MismatchedRegister {
            expected: 4,
            found: 7
        })
    );
}
