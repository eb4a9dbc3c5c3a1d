use hyperion::env::{Args, CliArgs};

#[test]
fn argument_spans() {
    let args = CliArgs { hyperion_cli_args_ptr: 0x1000 };
    assert_eq!(args.length_addr(0), 0x1008);
    assert_eq!(args.length_addr(2), 0x1018);
    assert_eq!(args.iter(&vec![3, 0, 5]), vec![(0x1020, 3), (0x1023, 0), (0x1023, 5)]);
    assert_eq!(args.iter(&vec![]), vec![]);
}

#[test]
fn args_from_both_ends() {
    let mut args = Args::new(vec!["sh", "-c", "ls"]);
    assert_eq!(args.len(), 3);
    let copy = args.clone();
    assert_eq!(args.next(), Some("sh"));
    assert_eq!(args.next_back(), Some("ls"));
    assert_eq!(args.len(), 1);
    assert_eq!(args.next(), Some("-c"));
    assert_eq!(args.next(), None);
    assert_eq!(args.next_back(), None);
    assert_eq!(copy.len(), 3);
}
