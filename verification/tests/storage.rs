use prophet_tb::codec::{decode_block, encode_block};
use prophet_tb::dtm::Dtm;
use prophet_tb::material::MaterialSignature;
use prophet_tb::registry::{RegisterError, TableRegistry};
use prophet_tb::serial::LoadError;
use prophet_tb::store::{CompressedTable, DecompressionContext};

fn sig(counts: [u8; 10]) -> MaterialSignature {
    MaterialSignature { counts }
}

fn sample(n: usize) -> Vec<u16> {
    (0..n).map(|i| if i % 50 < 40 { 2001 } else { (1001 + (i % 7)) as u16 }).collect()
}

#[test]
fn runs_are_four_bytes_each() {
    let bytes = encode_block(&vec![7, 7, 7, 258, 258], 0, 5);
    assert_eq!(bytes, vec![3, 0, 7, 0, 2, 0, 2, 1]);
    let bytes = encode_block(&vec![7, 7, 7, 258, 258], 1, 4);
    assert_eq!(bytes, vec![2, 0, 7, 0, 1, 0, 2, 1]);
    assert!(encode_block(&vec![1, 2, 3], 2, 2).is_empty());
}

#[test]
fn long_runs_are_split() {
    let values = vec![9u16; 70000];
    let bytes = encode_block(&values, 0, 70000);
    assert_eq!(bytes, vec![255, 255, 9, 0, 113, 17, 9, 0]);
    let mut out = Vec::new();
    assert!(decode_block(&bytes, 70000, &mut out));
    assert_eq!(out, values);
}

#[test]
fn decoding_checks_the_number_of_cells() {
    let bytes = vec![3, 0, 7, 0, 2, 0, 2, 1];
    let mut out = vec![1, 2, 3];
    assert!(decode_block(&bytes, 5, &mut out));
    assert_eq!(out, vec![7, 7, 7, 258, 258]);
    assert!(!decode_block(&bytes, 4, &mut out));
    assert!(!decode_block(&bytes, 6, &mut out));
    assert!(!decode_block(&bytes[..7].to_vec(), 3, &mut out));
    assert!(decode_block(&Vec::new(), 0, &mut out));
    assert!(out.is_empty());
}

#[test]
fn cells_are_read_back_block_by_block() {
    let values = sample(1000);
    let t = CompressedTable::compress(sig([0; 10]), &values, 64);
    assert_eq!(t.size(), 1000);
    assert_eq!(t.blocks.len(), 16);
    let mut ctx = DecompressionContext::new();
    for i in [0usize, 1, 63, 64, 65, 500, 959, 960, 999] {
        assert_eq!(t.read_cell(i, &mut ctx), values[i]);
        assert!(ctx.filled);
        assert_eq!(ctx.block, i / 64);
    }
    assert_eq!(ctx.plain.len(), 40);
    let mut i = 1000;
    while i > 0 {
        i -= 1;
        assert_eq!(t.read_cell(i, &mut ctx), values[i]);
    }
}

#[test]
fn block_sizes_that_divide_and_that_do_not() {
    let values = sample(128);
    assert_eq!(CompressedTable::compress(sig([0; 10]), &values, 64).blocks.len(), 2);
    assert_eq!(CompressedTable::compress(sig([0; 10]), &values, 128).blocks.len(), 1);
    assert_eq!(CompressedTable::compress(sig([0; 10]), &values, 127).blocks.len(), 2);
    assert_eq!(CompressedTable::compress(sig([0; 10]), &values, 1).blocks.len(), 128);
    assert_eq!(CompressedTable::compress(sig([0; 10]), &Vec::new(), 64).blocks.len(), 0);
}

#[test]
fn a_context_is_reused_for_the_same_block_only() {
    let values = sample(300);
    let t = CompressedTable::compress(sig([0; 10]), &values, 100);
    let mut ctx = DecompressionContext::new();
    assert!(!ctx.filled);
    t.read_cell(150, &mut ctx);
    let held = ctx.plain.clone();
    t.read_cell(199, &mut ctx);
    assert_eq!(ctx.plain, held);
    t.read_cell(200, &mut ctx);
    assert_eq!(ctx.block, 2);
    ctx.reset();
    assert!(!ctx.filled);
}

#[test]
fn bytes_round_trip() {
    let values = sample(1000);
    let t = CompressedTable::compress(sig([1, 0, 0, 0, 0, 0, 0, 0, 0, 2]), &values, 64);
    let bytes = t.to_bytes();
    assert_eq!(&bytes[..4], b"PTB1");
    assert_eq!(&bytes[4..14], &[1, 0, 0, 0, 0, 0, 0, 0, 0, 2]);
    assert_eq!(&bytes[14..22], &[64, 0, 0, 0, 0, 0, 0, 0]);
    assert_eq!(&bytes[22..30], &[232, 3, 0, 0, 0, 0, 0, 0]);
    let back = CompressedTable::from_bytes(&bytes).unwrap();
    assert_eq!(back.sig, t.sig);
    assert_eq!(back.len, 1000);
    assert_eq!(back.block_size, 64);
    assert_eq!(back.blocks, t.blocks);
}

#[test]
fn bytes_that_are_no_table() {
    let t = CompressedTable::compress(sig([0; 10]), &sample(100), 64);
    let bytes = t.to_bytes();
    assert_eq!(CompressedTable::from_bytes(&bytes[..29]).err(), Some(LoadError::Header));
    assert_eq!(CompressedTable::from_bytes(&[]).err(), Some(LoadError::Header));
    let mut bad = bytes.clone();
    bad[3] = 0x32;
    assert_eq!(CompressedTable::from_bytes(&bad).err(), Some(LoadError::Header));
    let mut bad = bytes.clone();
    bad[14] = 0;
    assert_eq!(CompressedTable::from_bytes(&bad).err(), Some(LoadError::Header));
    assert_eq!(CompressedTable::from_bytes(&bytes[..bytes.len() - 1]).err(), Some(LoadError::Block));
    assert_eq!(CompressedTable::from_bytes(&bytes[..33]).err(), Some(LoadError::Block));
    let mut bad = bytes.clone();
    bad.push(0);
    assert_eq!(CompressedTable::from_bytes(&bad).err(), Some(LoadError::Trailing));
    // One cell more than the blocks hold.
    let mut bad = bytes.clone();
    bad[22] = 101;
    assert_eq!(CompressedTable::from_bytes(&bad).err(), Some(LoadError::Block));
    // A run made one cell longer.
    let mut bad = bytes.clone();
    bad[38] += 1;
    assert_eq!(CompressedTable::from_bytes(&bad).err(), Some(LoadError::Block));
}

#[test]
fn registration_counts_tables_and_refuses_misfits() {
    let mut reg = TableRegistry::new();
    let kk = reg.generate(&sig([0; 10])).unwrap();
    let bytes = kk.to_bytes();
    assert_eq!(reg.register_bytes(&bytes[..20]), -1);
    assert_eq!(reg.register_bytes(&bytes[..bytes.len() - 2]), -2);
    assert_eq!(reg.count(), 0);
    assert_eq!(reg.register_bytes(&bytes), 1);
    assert_eq!(reg.register_bytes(&bytes), -5);
    assert_eq!(reg.count(), 1);
    assert_eq!(reg.register(kk), Err(RegisterError::Duplicate));
    // A table with the wrong number of cells for its signature.
    let short = CompressedTable::compress(sig([1, 0, 0, 0, 0, 0, 0, 0, 0, 0]), &sample(100), 64);
    assert_eq!(reg.register_bytes(&short.to_bytes()), -4);
    assert_eq!(reg.register(short), Err(RegisterError::Mismatch));
    // A signature of seven pieces.
    let big = CompressedTable::compress(sig([5, 0, 0, 0, 0, 0, 0, 0, 0, 0]), &sample(100), 64);
    assert_eq!(reg.register(big), Err(RegisterError::Mismatch));
    assert_eq!(reg.count(), 1);
    assert_eq!(reg.probe(&[6, 14], &[0, 63], 0, 64), 1000);
}

#[test]
fn cells_stand_for_outcomes() {
    let values: Vec<u16> = vec![0, 1, 2, 1000, 1001, 1002, 2000, 2001, 2002, 65535];
    let t = CompressedTable::compress(sig([0; 10]), &values, 4);
    let mut ctx = DecompressionContext::new();
    let read: Vec<Dtm> = (0..values.len()).map(|i| t.read_value(i, &mut ctx)).collect();
    assert_eq!(
        read,
        vec![
            Dtm::Unknown,
            Dtm::Unknown,
            Dtm::Decisive(-999),
            Dtm::Decisive(-1),
            Dtm::Decisive(0),
            Dtm::Decisive(1),
            Dtm::Decisive(999),
            Dtm::Draw,
            Dtm::Unknown,
            Dtm::Unknown,
        ]
    );
}

#[test]
fn a_new_context_holds_nothing() {
    let ctx = DecompressionContext::new();
    assert!(!ctx.filled);
    assert!(ctx.plain.is_empty());
    assert_eq!(ctx.block, 0);
    assert_eq!(ctx.sig.counts, [0; 10]);
}
