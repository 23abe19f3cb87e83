use kern::atags::{Atag, Core, Kind, Mem, TAG_CMDLINE, TAG_CORE, TAG_MEM, TAG_NONE};

fn core_tag() -> Core {
    Core { flags: 1, page_size: 4096, root_dev: 0 }
}

fn mem_tag() -> Mem {
    Mem { size: 0x3c00_0000, start: 0 }
}

#[test]
fn as_core_gives_the_core_tag_only() {
    assert_eq!(Atag::Core(core_tag()).as_core(), Some(core_tag()));
    assert_eq!(Atag::Mem(mem_tag()).as_core(), None);
    assert_eq!(Atag::Cmd("console=ttyS0").as_core(), None);
    assert_eq!(Atag::Unknown(7).as_core(), None);
    assert_eq!(Atag::End.as_core(), None);
}

#[test]
fn mem_gives_the_memory_tag_only() {
    assert_eq!(Atag::Mem(mem_tag()).mem(), Some(mem_tag()));
    assert_eq!(Atag::Core(core_tag()).mem(), None);
    assert_eq!(Atag::Cmd("console=ttyS0").mem(), None);
    assert_eq!(Atag::Unknown(7).mem(), None);
    assert_eq!(Atag::End.mem(), None);
}

#[test]
fn cmd_gives_the_command_line_only() {
    assert_eq!(Atag::Cmd("console=ttyS0").cmd(), Some("console=ttyS0"));
    assert_eq!(Atag::Cmd("").cmd(), Some(""));
    assert_eq!(Atag::Core(core_tag()).cmd(), None);
    assert_eq!(Atag::Mem(mem_tag()).cmd(), None);
    assert_eq!(Atag::Unknown(7).cmd(), None);
    assert_eq!(Atag::End.cmd(), None);
}

#[test]
fn get_str_len_stops_at_the_first_zero() {
    assert_eq!(Atag::get_str_len(b"abc\0def\0"), 3);
    assert_eq!(Atag::get_str_len(b"\0"), 0);
    assert_eq!(Atag::get_str_len(b"\0abc"), 0);
    assert_eq!(Atag::get_str_len(b"console=ttyS0\0\0\0"), 13);
}

#[test]
fn get_str_len_without_a_zero_is_the_length() {
    assert_eq!(Atag::get_str_len(b""), 0);
    assert_eq!(Atag::get_str_len(b"abc"), 3);
}

#[test]
fn kind_of_a_tag_word() {
    assert_eq!(Kind::of(0x5441_0001), Kind::Core);
    assert_eq!(Kind::of(0x5441_0002), Kind::Mem);
    assert_eq!(Kind::of(0x5441_0009), Kind::Cmd);
    assert_eq!(Kind::of(0), Kind::End);
    assert_eq!(Kind::of(TAG_CORE), Kind::Core);
    assert_eq!(Kind::of(TAG_MEM), Kind::Mem);
    assert_eq!(Kind::of(TAG_CMDLINE), Kind::Cmd);
    assert_eq!(Kind::of(TAG_NONE), Kind::End);
}

#[test]
fn kind_keeps_an_unknown_tag_word() {
    assert_eq!(Kind::of(0x5441_0003), Kind::Unknown(0x5441_0003));
    assert_eq!(Kind::of(0x5442_0005), Kind::Unknown(0x5442_0005));
    assert_eq!(Kind::of(1), Kind::Unknown(1));
    assert_eq!(Kind::of(u32::MAX), Kind::Unknown(u32::MAX));
}
