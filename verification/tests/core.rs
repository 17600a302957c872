use swarm_engine::bitfield::Bitfield;
use swarm_engine::entities::TorrentLayout;
use swarm_engine::file_provider::{FileProvider, MemoryFileProvider};

fn layout(pieces: usize, piece_length: usize, total_length: usize, block_size: usize) -> TorrentLayout {
    let l = TorrentLayout { pieces, piece_length, total_length, block_size };
    assert!(l.is_valid());
    l
}

#[test]
fn test_read_and_write() {
    let mut file_provider = MemoryFileProvider::new_zeroed(4);

    let block_data = vec![1, 2, 3, 4];
    file_provider.write(0, block_data.clone()).unwrap();
    let read_data = file_provider.read(0, block_data.len()).unwrap();
    assert_eq!(block_data, read_data);
}

#[test]
fn write_then_read_round_trips_mid_range() {
    let mut fp = MemoryFileProvider::new_zeroed(10);
    fp.write(3, vec![9, 8, 7]).unwrap();
    assert_eq!(fp.read(3, 3).unwrap(), vec![9, 8, 7]);
    assert_eq!(fp.read(0, 3).unwrap(), vec![0, 0, 0]);
    assert_eq!(fp.read(6, 4).unwrap(), vec![0, 0, 0, 0]);
}

#[test]
fn new_bitfield_has_length_n_and_all_bits_clear() {
    for n in [0usize, 1, 7, 8, 9, 64] {
        let bf = Bitfield::init(n);
        assert_eq!(bf.len(), n);
        for i in 0..n {
            assert!(!bf.get(i));
        }
    }
}

#[test]
fn bitfield_from_wire_bytes_msb_first() {
    let bytes = vec![0b1010_0000u8, 0b0000_0001u8];
    let bf = Bitfield::from_bytes(&bytes, 16);
    assert!(bf.get(0));
    assert!(!bf.get(1));
    assert!(bf.get(2));
    for i in 3..15 {
        assert!(!bf.get(i));
    }
    assert!(bf.get(15));
}

#[test]
fn bitfield_set_piece_sets_only_that_bit() {
    let mut bf = Bitfield::init(5);
    bf.set_piece(2);
    assert_eq!(bf.len(), 5);
    for i in 0..5 {
        assert_eq!(bf.get(i), i == 2);
    }
}

#[test]
fn bitfield_clone_copies_the_bits() {
    let mut bf = Bitfield::init(3);
    bf.set_piece(1);
    let copy = bf.clone();
    assert!(!copy.get(0));
    assert!(copy.get(1));
    assert!(!copy.get(2));
}

#[test]
fn layout_validity() {
    assert!(layout(3, 16, 48, 16).is_valid());
    assert!(layout(3, 16, 33, 8).is_valid());
    // a zero block size is refused
    let l = TorrentLayout { pieces: 1, piece_length: 4, total_length: 4, block_size: 0 };
    assert!(!l.is_valid());
    // piece count must cover the total length exactly
    let l = TorrentLayout { pieces: 2, piece_length: 16, total_length: 48, block_size: 8 };
    assert!(!l.is_valid());
    let l = TorrentLayout { pieces: 4, piece_length: 16, total_length: 48, block_size: 8 };
    assert!(!l.is_valid());
}

#[test]
fn layout_piece_and_block_sizes() {
    let l = layout(3, 16, 41, 8);
    assert_eq!(l.piece_size_x(0), 16);
    assert_eq!(l.piece_size_x(1), 16);
    assert_eq!(l.piece_size_x(2), 9);
    assert_eq!(l.num_blocks_x(0), 2);
    assert_eq!(l.num_blocks_x(2), 2);
    assert_eq!(l.block_len_x(0, 8), 8);
    assert_eq!(l.block_len_x(2, 8), 1);
}
