use flacbits::flac::{FlacAudio, FlacFileInfo, FlacMeta, FlacWriter};

#[test]
fn file_info_has_stream_marker() {
    let info = FlacFileInfo::new();
    assert_eq!(info.flac_header, 0x664C6143);
    assert_eq!(info.flac_meta.flac_meta_temp, 1);
    assert_eq!(info.flac_audio.flac_audio_temp, 1);
}

#[test]
fn meta_and_audio_builders() {
    assert_eq!(FlacMeta::new().flac_meta_temp, 1);
    assert_eq!(FlacAudio::new().flac_audio_temp, 1);
    FlacWriter::create_flac_info();
    FlacWriter::gen_file();
}
