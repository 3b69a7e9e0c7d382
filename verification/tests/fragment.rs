use std::io::Write;

use flate2::write::ZlibEncoder;
use flate2::Compression;
use mosh_rs::fragment::{split_into_fragments, Fragment, FragmentAssembly, Fragmenter};
use mosh_rs::messages::Instruction;

fn instruction(len: usize) -> Instruction {
    let mut seed = 12345u32;
    let diff = (0..len)
        .map(|_| {
            seed = seed.wrapping_mul(1103515245).wrapping_add(12345);
            (seed >> 16) as u8
        })
        .collect();
    Instruction {
        protocol_version: Some(2),
        old_num: Some(4),
        new_num: Some(9),
        ack_num: Some(7),
        throwaway_num: Some(0),
        diff: Some(diff),
        chaff: Some(vec![1]),
    }
}

fn compressed(data: &[u8]) -> Vec<u8> {
    let mut encoder = ZlibEncoder::new(Vec::new(), Compression::default());
    encoder.write_all(data).unwrap();
    encoder.finish().unwrap()
}

fn over_the_wire(f: &Fragment) -> Fragment {
    Fragment::from_bytes(&f.to_bytes()).unwrap()
}

#[test]
fn fragment_on_the_wire() {
    let f = Fragment { id: 0x0102, fragment_num: 3, is_final: false, contents: vec![7, 8] };
    assert_eq!(f.to_bytes(), [0, 0, 0, 0, 0, 0, 1, 2, 0, 3, 7, 8]);
    let f = Fragment { id: 0x0102, fragment_num: 3, is_final: true, contents: vec![] };
    assert_eq!(f.to_bytes(), [0, 0, 0, 0, 0, 0, 1, 2, 0x80, 3]);
    let back = Fragment::from_bytes(&[0, 0, 0, 0, 0, 0, 1, 2, 0xff, 0xff, 5]).unwrap();
    assert_eq!(back.id, 0x0102);
    assert_eq!(back.fragment_num, 0x7fff);
    assert!(back.is_final);
    assert_eq!(back.contents, [5]);
    assert!(Fragment::from_bytes(&[0; 9]).is_none());
    assert!(Fragment::from_bytes(&[0; 10]).is_some());
}

#[test]
fn fragment_number_of_sixteen_bits_looks_final() {
    let f = Fragment { id: 1, fragment_num: 0x8001, is_final: false, contents: vec![] };
    let back = over_the_wire(&f);
    assert_eq!(back.fragment_num, 1);
    assert!(back.is_final);
}

#[test]
fn data_is_cut_into_pieces() {
    let data: Vec<u8> = (0..25).collect();
    let frags = split_into_fragments(&data, 10, 6);
    assert_eq!(frags.len(), 3);
    for (i, f) in frags.iter().enumerate() {
        assert_eq!(f.id, 6);
        assert_eq!(f.fragment_num, i as u16);
        assert_eq!(f.is_final, i == 2);
    }
    assert_eq!(frags[0].contents, data[..10]);
    assert_eq!(frags[2].contents, data[20..]);
    assert_eq!(split_into_fragments(&data[..20], 10, 6).len(), 2);
    let one = split_into_fragments(&[], 10, 6);
    assert_eq!(one.len(), 1);
    assert!(one[0].is_final && one[0].contents.is_empty());
}

#[test]
fn fragment_numbers_wrap() {
    let frags = split_into_fragments(&vec![0; 0x1_0002], 1, 6);
    assert_eq!(frags[0xffff].fragment_num, 0xffff);
    assert_eq!(frags[0x1_0000].fragment_num, 0);
    assert_eq!(frags[0x1_0001].fragment_num, 1);
}

#[test]
fn fragments_hold_the_compressed_instruction() {
    let inst = instruction(5000);
    let mut fragmenter = Fragmenter::new();
    let frags = fragmenter.make_fragments(&inst, 1224);
    let joined: Vec<u8> = frags.iter().flat_map(|f| f.contents.clone()).collect();
    assert_eq!(joined, compressed(&inst.encode_to_vec()));
    assert_ne!(joined, inst.encode_to_vec());
    assert!(frags.len() > 3);
    let (last, others) = frags.split_last().unwrap();
    for f in others {
        assert_eq!(f.to_bytes().len(), 1224);
    }
    assert!(last.to_bytes().len() <= 1224);
    assert!(!last.contents.is_empty());
    let empty = Instruction::decode(&[]).unwrap();
    let frags = fragmenter.make_fragments(&empty, 1224);
    assert_eq!(frags.len(), 1);
    assert!(!frags[0].contents.is_empty());
}

#[test]
fn identifiers_follow_the_states() {
    let mut fragmenter = Fragmenter::new();
    let mut inst = instruction(1);
    assert_eq!(fragmenter.make_fragments(&inst, 100)[0].id, 1);
    assert_eq!(fragmenter.make_fragments(&inst, 100)[0].id, 1);
    inst.new_num = Some(10);
    assert_eq!(fragmenter.make_fragments(&inst, 100)[0].id, 2);
    inst.old_num = Some(5);
    assert_eq!(fragmenter.make_fragments(&inst, 100)[0].id, 3);
    let mut fresh = Fragmenter::new();
    inst.old_num = Some(u64::MAX);
    inst.new_num = Some(u64::MAX);
    assert_eq!(fresh.make_fragments(&inst, 100)[0].id, 0);
}

#[test]
fn instruction_comes_out_in_any_order() {
    let inst = instruction(3000);
    let mut fragmenter = Fragmenter::new();
    let frags = fragmenter.make_fragments(&inst, 300);
    let n = frags.len();
    assert!(n >= 10);
    let forward: Vec<usize> = (0..n).collect();
    let backward: Vec<usize> = (0..n).rev().collect();
    let doubled: Vec<usize> = (0..2 * n - 1).map(|i| i / 2).collect();
    let strided: Vec<usize> = (0..n).map(|i| (i * 7 + 3) % n).collect();
    for order in [forward, backward, doubled, strided] {
        let mut seen = vec![false; n];
        let mut assembly = FragmentAssembly::new();
        let mut done = false;
        for &i in &order {
            seen[i] = true;
            let complete = assembly.add_fragment(&over_the_wire(&frags[i]));
            assert_eq!(complete, seen.iter().all(|&s| s));
            done = complete;
        }
        if done {
            let back = assembly.get_assembly().unwrap();
            assert_eq!(back.diff, inst.diff);
            assert_eq!(back.new_num, Some(9));
            assert_eq!(back.ack_num, Some(7));
        }
    }
}

#[test]
fn another_instruction_starts_the_assembly_anew() {
    let mut assembly = FragmentAssembly::new();
    let mut fragmenter = Fragmenter::new();
    let first = fragmenter.make_fragments(&instruction(3000), 300);
    let mut other = instruction(3);
    other.new_num = Some(10);
    let second = fragmenter.make_fragments(&other, 300);
    assert!(!assembly.add_fragment(&first[0]));
    assert!(!assembly.add_fragment(&first[1]));
    assert_eq!(second.len(), 1);
    assert!(assembly.add_fragment(&second[0]));
    assert_eq!(assembly.get_assembly().unwrap().new_num, Some(10));
    // Only the identifier is kept: the same fragment completes it again.
    assert!(assembly.add_fragment(&second[0]));
}

#[test]
fn repeated_instruction_comes_out_again() {
    let inst = instruction(3000);
    let mut fragmenter = Fragmenter::new();
    let mut assembly = FragmentAssembly::new();
    for _ in 0..2 {
        let frags = fragmenter.make_fragments(&inst, 300);
        assert_eq!(frags[0].id, 1);
        let last = frags.len() - 1;
        for (i, f) in frags.iter().rev().enumerate() {
            assert_eq!(assembly.add_fragment(&over_the_wire(f)), i == last);
        }
        assert_eq!(assembly.get_assembly().unwrap().diff, inst.diff);
    }
}

#[test]
fn new_assembly_takes_every_identifier() {
    let inst = instruction(10);
    for id in [0, 1, u64::MAX] {
        let mut assembly = FragmentAssembly::new();
        let data = compressed(&inst.encode_to_vec());
        let frags = split_into_fragments(&data, 7, id);
        let last = frags.len() - 1;
        for (i, f) in frags.iter().enumerate() {
            assert_eq!(assembly.add_fragment(f), i == last);
        }
        assert_eq!(assembly.get_assembly().unwrap().diff, inst.diff);
    }
}

#[test]
fn assembly_with_a_hole_stays() {
    let frag = |num: u16, is_final: bool| Fragment {
        id: 1,
        fragment_num: num,
        is_final,
        contents: vec![num as u8],
    };
    let mut assembly = FragmentAssembly::new();
    assert!(!assembly.add_fragment(&frag(5, false)));
    assert!(assembly.add_fragment(&frag(1, true)));
    assert!(assembly.get_assembly().is_none());
    assert!(!assembly.add_fragment(&frag(0, false)));
    // Filled, but what it holds is no compressed instruction: it is emptied.
    assert!(assembly.get_assembly().is_none());
    assert!(!assembly.add_fragment(&frag(0, false)));
    assert!(assembly.add_fragment(&frag(1, true)));
}

#[test]
fn what_does_not_decode_is_dropped() {
    for bytes in [compressed(&[0xff]), vec![1, 2, 3], vec![]] {
        let mut assembly = FragmentAssembly::new();
        let frag = Fragment { id: 1, fragment_num: 0, is_final: true, contents: bytes };
        assert!(assembly.add_fragment(&frag));
        assert!(assembly.get_assembly().is_none());
    }
}
