use overmask::arguments::{
    Arguments, MainSubcommand, TrimPolicy, DEFAULT_BLOCK_SIZE, DEFAULT_NBD_TIMEOUT,
};

#[test]
fn arguments_carry_the_run_configuration() {
    let args = Arguments {
        seed_file: String::from("seed.img"),
        overlay_file: String::from("overlay.img"),
        mask_file: String::from("mask.img"),
        block_size: DEFAULT_BLOCK_SIZE,
        ignore_errors: false,
        subcommand: MainSubcommand::Device {
            nbd_device: String::from("/dev/nbd0"),
            nbd_timeout: DEFAULT_NBD_TIMEOUT,
            print_operations: false,
            trim_policy: TrimPolicy::ZeroFill,
        },
    };
    assert_eq!(args.block_size, 512);
    match args.subcommand {
        MainSubcommand::Device {
            nbd_timeout,
            trim_policy,
            ..
        } => {
            assert_eq!(nbd_timeout, 60);
            assert_eq!(trim_policy, TrimPolicy::ZeroFill);
        }
        _ => panic!("device configuration expected"),
    }
}

#[test]
fn subcommands_carry_their_flags() {
    let apply = MainSubcommand::Apply { force: false };
    match apply {
        MainSubcommand::Apply { force } => assert!(!force),
        _ => panic!("apply configuration expected"),
    }
    let clean = MainSubcommand::Clean { truncate: true };
    match clean {
        MainSubcommand::Clean { truncate } => assert!(truncate),
        _ => panic!("clean configuration expected"),
    }
}
