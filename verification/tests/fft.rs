use advent::y2019::fft::{digits_text, expand_input, phase, run_phases};

fn signal(s: &str) -> Vec<i32> {
    expand_input(&s.as_bytes().to_vec(), 1)
}

fn text(v: &Vec<i32>) -> String {
    digits_text(v).into_iter().collect()
}

#[test]
fn fft_single_phases() {
    let s = signal("12345678");
    let mut out = vec![0; 8];
    phase(&s, &mut out, 8);
    assert_eq!(text(&out), "48226158");
    let mut out2 = vec![0; 8];
    phase(&out, &mut out2, 8);
    assert_eq!(text(&out2), "34040438");
}

#[test]
fn fft_rounds() {
    assert_eq!(text(&run_phases(signal("12345678"), 1)), "34040438");
    assert_eq!(text(&run_phases(signal("12345678"), 2)), "01029498");
}

#[test]
fn fft_hundred_phases() {
    let out = run_phases(signal("80871224585914546619083218645595"), 50);
    assert_eq!(&text(&out)[..8], "24176176");
}

#[test]
fn fft_expand() {
    assert_eq!(expand_input(&b"12".to_vec(), 3), vec![1, 2, 1, 2, 1, 2]);
    assert_eq!(expand_input(&b"".to_vec(), 5), Vec::<i32>::new());
    // Only the first `n` outputs are written.
    let mut out = vec![7; 3];
    phase(&vec![1, 2, 3], &mut out, 2);
    assert_eq!(out, vec![1, 2, 7]);
}
