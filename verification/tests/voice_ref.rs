use ugg::paths::AssetPath;
use ugg::voice_ref::{
    file_stem, irodori_root, ref_latents, ref_path_for, ref_path_in_dir, refs_dir,
};

#[test]
fn ref_path_format_is_slot_id_wav() {
    let dir = AssetPath::new("C:/refs");
    let p = ref_path_in_dir(&dir, "main", 42).expect("path");
    assert_eq!(p.file_name().as_deref(), Some("main_42.wav"));

    let p2 = ref_path_in_dir(&dir, "sub", 7).expect("path");
    assert_eq!(p2.file_name().as_deref(), Some("sub_7.wav"));
}

#[test]
fn ref_path_rejects_traversal() {
    let dir = AssetPath::new("C:/refs");
    assert!(ref_path_in_dir(&dir, "../evil", 1).is_err());
    assert!(ref_path_in_dir(&dir, "main/sub", 1).is_err());
    assert!(ref_path_in_dir(&dir, "main\\sub", 1).is_err());
    assert!(ref_path_in_dir(&dir, "", 1).is_err());
    assert!(ref_path_in_dir(&dir, "main.dot", 1).is_err());
}

#[test]
fn deleting_a_voice_ref_also_deletes_its_latents_only() {
    let names: Vec<String> = [
        "main_1.wav",
        "main_1.Aratako__Irodori-TTS-500M-v3.fp32.n-16_e1_s30.latent.pt",
        "main_1.Other@abc.bf16.n-16_e1_s30.latent.pt.tmp",
        "main_10.wav",
        "main_10.Aratako__Irodori-TTS-500M-v3.fp32.n-16_e1_s30.latent.pt",
        "sub_1.Aratako__Irodori-TTS-500M-v3.fp32.n-16_e1_s30.latent.pt",
        "main_1.notes.txt",
    ]
    .iter()
    .map(|s| s.to_string())
    .collect();
    assert_eq!(
        ref_latents("main_1.wav", &names),
        vec![
            "main_1.Aratako__Irodori-TTS-500M-v3.fp32.n-16_e1_s30.latent.pt",
            "main_1.Other@abc.bf16.n-16_e1_s30.latent.pt.tmp",
        ]
    );
}

#[test]
fn latents_are_deleted_even_when_the_wav_is_already_gone() {
    let names = vec!["sub_7.m.fp32.n-16_e1_s30.latent.pt".to_string()];
    assert_eq!(ref_latents("sub_7.wav", &names), names);
}

#[test]
fn voices_lie_below_the_data_of_the_program() {
    let data = AssetPath::new("D");
    assert_eq!(irodori_root(&data).parts, vec!["irodori"]);
    assert_eq!(refs_dir(&data).parts, vec!["irodori", "refs"]);
    assert_eq!(
        ref_path_for(&data, "main", -9223372036854775808).unwrap().parts,
        vec!["irodori", "refs", "main_-9223372036854775808.wav"]
    );
    assert_eq!(
        ref_path_for(&data, "a.b", 1),
        Err("slot に不正な文字が含まれています: a.b".to_string())
    );
}

#[test]
fn a_stem_is_what_the_standard_library_says() {
    for name in ["a.wav", "a.b.c", ".hidden", "plain", ".a.b", "a."] {
        let stem = std::path::Path::new(name).file_stem().unwrap().to_str().unwrap();
        assert_eq!(file_stem(name), stem, "{name}");
    }
}
