use srt::loss_compression::{compress_loss_list, decompress_loss_list};
use srt::seq_number::SeqNumber;

fn seqs(nums: &[u32]) -> Vec<SeqNumber> {
    nums.iter().map(|&n| SeqNumber::new(n)).collect()
}

#[test]
fn compress_collapses_runs() {
    let words = compress_loss_list(&seqs(&[1, 2, 3, 5, 7, 8, 9]));
    assert_eq!(
        words,
        vec![0x8000_0001u32 as i32, 3, 5, 0x8000_0007u32 as i32, 9]
    );
}

#[test]
fn compress_singletons_stay_single() {
    assert_eq!(compress_loss_list(&seqs(&[10, 20, 30])), vec![10, 20, 30]);
    assert_eq!(compress_loss_list(&seqs(&[])), Vec::<i32>::new());
    assert_eq!(compress_loss_list(&seqs(&[7])), vec![7]);
}

#[test]
fn compress_one_long_run() {
    assert_eq!(
        compress_loss_list(&seqs(&[100, 101, 102, 103, 104])),
        vec![0x8000_0064u32 as i32, 104]
    );
    // A run of exactly two still pays for itself on the wire.
    assert_eq!(compress_loss_list(&seqs(&[4, 5])), vec![0x8000_0004u32 as i32, 5]);
}

#[test]
fn decompress_inverts_compress() {
    let cases: Vec<Vec<u32>> = vec![
        vec![],
        vec![0],
        vec![1, 2, 3, 5, 7, 8, 9],
        vec![0x7fff_fffd, 0x7fff_fffe, 0x7fff_ffff],
        vec![10, 12, 13, 14, 100, 101, 500],
    ];
    for nums in cases {
        let input = seqs(&nums);
        let words = compress_loss_list(&input);
        assert_eq!(decompress_loss_list(&words).unwrap(), input);
    }
}

#[test]
fn decompress_inverts_compress_large() {
    // A mixed loss list of ten thousand sequence numbers: alternating
    // singletons and runs of growing length.
    let mut nums: Vec<u32> = Vec::new();
    let mut next: u32 = 1;
    let mut run: u32 = 1;
    while nums.len() < 10_000 {
        for k in 0..run {
            nums.push(next + k);
        }
        next += run + 2;
        run = run % 17 + 1;
    }
    nums.truncate(10_000);
    let input = seqs(&nums);
    let words = compress_loss_list(&input);
    assert!(words.len() < nums.len());
    assert_eq!(decompress_loss_list(&words).unwrap(), input);
}

#[test]
fn decompress_rejects_malformed() {
    // A range start with nothing after it.
    assert!(decompress_loss_list(&vec![0x8000_0001u32 as i32]).is_none());
    // A range start followed by another range start.
    assert!(
        decompress_loss_list(&vec![0x8000_0001u32 as i32, 0x8000_0005u32 as i32]).is_none()
    );
    // A range that ends before it starts.
    assert!(decompress_loss_list(&vec![0x8000_0005u32 as i32, 2]).is_none());
}

#[test]
fn decompress_accepts_plain_lists() {
    assert_eq!(decompress_loss_list(&vec![3, 9, 11]).unwrap(), seqs(&[3, 9, 11]));
    assert_eq!(
        decompress_loss_list(&vec![0x8000_0002u32 as i32, 4, 9]).unwrap(),
        seqs(&[2, 3, 4, 9])
    );
    assert_eq!(decompress_loss_list(&Vec::new()).unwrap(), Vec::<SeqNumber>::new());
}
