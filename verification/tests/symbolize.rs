use profiler::symbolize::{resolve_jit, resolve_kernel, resolve_user, Frame, FrameKind};

#[test]
fn frame_label_includes_offset_when_nonzero() {
    assert_eq!(Frame::Kernel("do_idle".into()).label(), "do_idle");
    assert_eq!(Frame::User("main+0x10".into()).label(), "main+0x10");
    assert_eq!(Frame::Jit("LazyCompile:*foo".into()).label(), "LazyCompile:*foo");
    assert_eq!(Frame::Unknown.label(), "[unknown]");
}

#[test]
fn frame_kind_matches_variant() {
    assert_eq!(Frame::Kernel("x".into()).kind(), FrameKind::Kernel);
    assert_eq!(Frame::User("x".into()).kind(), FrameKind::User);
    assert_eq!(Frame::Jit("x".into()).kind(), FrameKind::Jit);
    assert_eq!(Frame::Unknown.kind(), FrameKind::Unknown);
}

#[test]
fn kernel_frames_carry_the_offset_in_hex() {
    assert_eq!(resolve_kernel(Some(("do_idle", 0))), Frame::Kernel("do_idle".to_string()));
    assert_eq!(resolve_kernel(Some(("do_idle", 0x1f))), Frame::Kernel("do_idle+0x1f".to_string()));
    assert_eq!(resolve_kernel(None), Frame::Unknown);
    assert_eq!(resolve_kernel(None).label(), "[unknown]");
}

#[test]
fn user_lookup_comes_before_the_jit_map() {
    assert_eq!(
        resolve_user(Some(("main".to_string(), 0x10))),
        Some(Frame::User("main+0x10".to_string()))
    );
    assert_eq!(resolve_user(Some(("main".to_string(), 0))), Some(Frame::User("main".to_string())));
    assert_eq!(resolve_user(None), None);
    assert_eq!(
        resolve_jit(Some(("LazyCompile:*foo".to_string(), 4))),
        Frame::Jit("LazyCompile:*foo+0x4".to_string())
    );
    assert_eq!(resolve_jit(Some(("f".to_string(), 0))), Frame::Jit("f".to_string()));
    assert_eq!(resolve_jit(None), Frame::Unknown);
    assert_eq!(resolve_jit(None).kind(), FrameKind::Unknown);
}

#[test]
fn label_offsets_read_back() {
    for offset in [1u64, 0x10, 0xdead, u64::MAX] {
        let label = resolve_kernel(Some(("a+0xname", offset))).label();
        let (name, hex) = label.rsplit_once("+0x").unwrap();
        assert_eq!(name, "a+0xname");
        assert_eq!(u64::from_str_radix(hex, 16), Ok(offset));
    }
}
