use drone_net::assembler::Assembler;
use drone_net::disassembler::{Disassembler, Fragment, FRAGMENT_DSIZE};

fn sample_payload(len: usize) -> Vec<u8> {
    (0..len).map(|i| (i % 251) as u8).collect()
}

#[test]
fn disassemble_300_bytes_into_three_fragments() {
    let payload = sample_payload(300);
    let mut d = Disassembler::new();
    let frags = d.disassemble_message(payload.clone(), 77);
    assert_eq!(frags.len(), 3);
    assert_eq!(FRAGMENT_DSIZE, 128);
    let lengths: Vec<u8> = frags.iter().map(|f| f.length).collect();
    assert_eq!(lengths, vec![128, 128, 44]);
    let indices: Vec<u64> = frags.iter().map(|f| f.fragment_index).collect();
    assert_eq!(indices, vec![0, 1, 2]);
    assert!(frags.iter().all(|f| f.total_n_fragments == 3));

    // reassembling in any arrival order yields the original bytes
    for order in [[0usize, 1, 2], [2, 0, 1], [1, 2, 0], [2, 1, 0]] {
        let mut a = Assembler::new();
        let mut result = None;
        for &i in &order {
            assert!(result.is_none());
            result = a.add_fragment(frags[i].clone(), 77);
        }
        assert_eq!(result, Some(payload.clone()));
    }
}

#[test]
fn roundtrip_at_exact_capacity_multiple() {
    let payload = sample_payload(256);
    let mut d = Disassembler::new();
    let frags = d.disassemble_message(payload.clone(), 5);
    assert_eq!(frags.len(), 2);
    assert_eq!(frags[0].length, 128);
    assert_eq!(frags[1].length, 128);
    let mut a = Assembler::new();
    assert_eq!(a.add_fragment(frags[0].clone(), 5), None);
    assert_eq!(a.add_fragment(frags[1].clone(), 5), Some(payload));
}

#[test]
fn roundtrip_single_short_fragment() {
    let payload = vec![9u8, 8, 7];
    let mut d = Disassembler::new();
    let frags = d.disassemble_message(payload.clone(), 1);
    assert_eq!(frags.len(), 1);
    assert_eq!(frags[0].length, 3);
    assert_eq!(frags[0].total_n_fragments, 1);
    assert_eq!(&frags[0].data[3..], &[0u8; 125]);
    let mut a = Assembler::new();
    assert_eq!(a.add_fragment(frags[0].clone(), 1), Some(payload));
}

#[test]
fn empty_payload_yields_no_fragment() {
    let mut d = Disassembler::new();
    let frags = d.disassemble_message(Vec::new(), 3);
    assert!(frags.is_empty());
}

#[test]
fn sessions_do_not_disturb_each_other() {
    let left = sample_payload(200);
    let right = sample_payload(140);
    let mut d = Disassembler::new();
    let left_frags = d.disassemble_message(left.clone(), 1);
    let right_frags = d.disassemble_message(right.clone(), 2);

    let mut a = Assembler::new();
    // first fragment of session 1 arrives, session 1 stays in flight
    assert_eq!(a.add_fragment(left_frags[0].clone(), 1), None);
    // a full unrelated session passes through the assembler
    assert_eq!(a.add_fragment(right_frags[0].clone(), 2), None);
    assert_eq!(a.add_fragment(right_frags[1].clone(), 2), Some(right));
    // session 1 still completes with its own bytes only
    assert_eq!(a.add_fragment(left_frags[1].clone(), 1), Some(left));
}

#[test]
fn fragment_carries_declared_byte_range() {
    let payload = sample_payload(300);
    let mut d = Disassembler::new();
    let frags = d.disassemble_message(payload.clone(), 4);
    for (i, f) in frags.iter().enumerate() {
        let start = i * FRAGMENT_DSIZE;
        let end = start + f.length as usize;
        assert_eq!(&f.data[..f.length as usize], &payload[start..end]);
    }
}

#[test]
fn handcrafted_fragments_reassemble_by_index() {
    // fragments built by hand, fed out of order
    let mut a = Assembler::new();
    let mut make = |idx: u64, byte: u8| Fragment {
        fragment_index: idx,
        total_n_fragments: 2,
        length: 1,
        data: {
            let mut d = vec![0u8; FRAGMENT_DSIZE];
            d[0] = byte;
            d
        },
    };
    let f1 = make(1, 20);
    let f0 = make(0, 10);
    assert_eq!(a.add_fragment(f1, 9), None);
    assert_eq!(a.add_fragment(f0, 9), Some(vec![10, 20]));
}
