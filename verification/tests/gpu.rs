use ugg::gpu::{
    decode_utf16, list_adapters, pick_irodori_gpu, AdapterDesc, DxgiAdapter, Enumeration,
    IrodoriPick, VENDOR_ID_NVIDIA,
};

fn ad(vendor: u32, name: &str, software: bool) -> DxgiAdapter {
    DxgiAdapter { vendor_id: vendor, description: name.to_string(), software }
}

#[test]
fn picks_nvidia_over_other_hardware() {
    let list = vec![
        ad(0x8086, "Intel(R) UHD Graphics", false),
        ad(VENDOR_ID_NVIDIA, "NVIDIA GeForce RTX 4070", false),
    ];
    match pick_irodori_gpu(&list) {
        IrodoriPick::Found { name } => assert!(name.contains("NVIDIA")),
        other => panic!("expected Found, got {other:?}"),
    }
}

#[test]
fn reports_not_nvidia_when_only_other_hw() {
    let list = vec![ad(0x8086, "Intel(R) UHD Graphics", false)];
    assert_eq!(
        pick_irodori_gpu(&list),
        IrodoriPick::NotNvidia { name: "Intel(R) UHD Graphics".to_string() }
    );
}

#[test]
fn reports_no_hardware_when_only_software() {
    let list = vec![ad(0x1414, "Microsoft Basic Render Driver", true)];
    assert_eq!(pick_irodori_gpu(&list), IrodoriPick::NoHardwareGpu);
}

#[test]
fn empty_list_means_no_hardware() {
    assert_eq!(pick_irodori_gpu(&vec![]), IrodoriPick::NoHardwareGpu);
}

#[test]
fn software_by_nvidia_is_not_hardware() {
    let list = vec![ad(VENDOR_ID_NVIDIA, "NVIDIA (software)", true)];
    assert_eq!(pick_irodori_gpu(&list), IrodoriPick::NoHardwareGpu);
}

fn utf16(s: &str) -> Vec<u16> {
    let mut v: Vec<u16> = s.encode_utf16().collect();
    v.push(0);
    v.push(b'x' as u16);
    v
}

#[test]
fn adapters_are_listed_from_what_the_system_says() {
    let e = Enumeration::Adapters {
        found: vec![
            Some(AdapterDesc { vendor_id: 0x10DE, description: utf16("RTX 😊"), flags: 0 }),
            None,
            Some(AdapterDesc { vendor_id: 0x1414, description: utf16("Basic"), flags: 3 }),
        ],
        failure: None,
    };
    assert_eq!(
        list_adapters(&e),
        Ok(vec![ad(0x10DE, "RTX 😊", false), ad(0x1414, "Basic", true)])
    );
    let broken = Enumeration::Adapters { found: vec![None, None], failure: Some("e".to_string()) };
    assert_eq!(list_adapters(&broken), Err("EnumAdapters1(2) 失敗: e".to_string()));
    assert_eq!(
        list_adapters(&Enumeration::NoFactory("f".to_string())),
        Err("DXGI factory 作成失敗: f".to_string())
    );
}

#[test]
fn utf16_is_decoded_like_the_standard_library() {
    for units in [
        vec![],
        vec![0x41u16, 0x3042],
        vec![0xD83D, 0xDE0A, 0x42],
        vec![0xD83D, 0x42],
        vec![0xDE0A, 0xD83D],
        vec![0xD83D, 0xD83D, 0xDE0A],
        vec![0xDBFF, 0xDFFF, 0xFFFF, 0xE000],
    ] {
        assert_eq!(decode_utf16(&units), String::from_utf16_lossy(&units));
    }
}
