use snaprs::cuwf::WfResource;

#[test]
fn new_keeps_shape() {
    let wf = WfResource::new(1024, 512, 16);
    assert_eq!((wf.nch, wf.nbatch, wf.nint), (1024, 512, 16));
}

#[test]
fn output_len_is_rows_times_channels() {
    let wf = WfResource::new(1024, 1024, 1024);
    assert_eq!(wf.output_len(), 1024);
    let wf = WfResource::new(2048, 1024, 256);
    assert_eq!(wf.output_len(), 2048 * 4);
}

#[test]
fn output_len_rounds_down() {
    let wf = WfResource::new(3, 5, 2);
    assert_eq!(wf.output_len(), 7);
}

#[test]
fn accepts_only_exact_buffer() {
    let wf = WfResource::new(64, 8, 4);
    assert!(wf.accepts_output(128));
    assert!(!wf.accepts_output(127));
    assert!(!wf.accepts_output(129));
}

#[test]
fn whole_rows_only_when_nint_divides_nbatch() {
    assert!(WfResource::new(64, 1024, 256).whole_rows());
    assert!(!WfResource::new(64, 1000, 256).whole_rows());
}
