use kcp::batch::pack_segments;
use kcp::rtt::Rtt;

#[test]
fn first_sample_is_taken_as_it_is() {
    let mut r = Rtt::new(100);
    assert_eq!(r, Rtt { srtt: 0, rttvar: 0, rto: 100 });
    r.sample(50, 10, 60000);
    assert_eq!(r, Rtt { srtt: 50, rttvar: 25, rto: 150 });
}

#[test]
fn later_samples_are_smoothed() {
    let mut r = Rtt { srtt: 50, rttvar: 25, rto: 150 };
    r.sample(60, 10, 60000);
    assert_eq!(r, Rtt { srtt: 51, rttvar: 21, rto: 135 });
    r.sample(11, 10, 60000);
    assert_eq!(r, Rtt { srtt: 46, rttvar: 25, rto: 146 });
}

#[test]
fn sample_of_zero_keeps_the_estimate_positive() {
    let mut r = Rtt::new(100);
    r.sample(0, 1, 60000);
    assert_eq!(r, Rtt { srtt: 1, rttvar: 0, rto: 2 });
    r.sample(0, 1, 60000);
    assert_eq!(r, Rtt { srtt: 1, rttvar: 0, rto: 2 });
}

#[test]
fn timeout_is_held_between_the_bounds() {
    let mut r = Rtt::new(100);
    r.sample(5, 100, 200);
    assert_eq!(r.rto, 100);
    r.sample(u32::MAX, 100, 200);
    assert_eq!(r.rto, 200);
    let mut big = Rtt { srtt: u32::MAX, rttvar: u32::MAX, rto: 1 };
    big.sample(u32::MAX, 1, u32::MAX);
    assert_eq!(big, Rtt { srtt: u32::MAX, rttvar: 3221225471, rto: u32::MAX });
}

#[test]
fn packing_fills_datagrams_in_order() {
    let segs = vec![vec![1u8; 40], vec![2u8; 40], vec![3u8; 40], vec![4u8; 100], vec![5u8; 10]];
    let out = pack_segments(&segs, 100);
    let mut first = vec![1u8; 40];
    first.extend_from_slice(&[2u8; 40]);
    let mut last = vec![4u8; 100];
    assert_eq!(out.len(), 4);
    assert_eq!(out[0], first);
    assert_eq!(out[1], vec![3u8; 40]);
    assert_eq!(out[2], last);
    assert_eq!(out[3], vec![5u8; 10]);
    last.clear();
    assert!(pack_segments(&Vec::new(), 100).is_empty());
}

#[test]
fn packing_never_splits_a_segment() {
    let segs = vec![vec![1u8; 10], vec![2u8; 150], vec![3u8; 10]];
    let out = pack_segments(&segs, 100);
    assert_eq!(out, vec![vec![1u8; 10], vec![2u8; 150], vec![3u8; 10]]);
    let exact = pack_segments(&vec![vec![1u8; 60], vec![2u8; 40], vec![3u8; 1]], 100);
    assert_eq!(exact.iter().map(|d| d.len()).collect::<Vec<usize>>(), vec![100, 1]);
}
