//! Records describing the encoder's output file: the stream marker
//! and the metadata and audio sections that an external assembler
//! fills in and writes out.

use vstd::prelude::*;

verus! {

pub struct FlacWriter;

pub struct FlacFileInfo {
    pub flac_header: u32,
    pub flac_meta: FlacMeta,
    pub flac_audio: FlacAudio,
}

pub struct FlacMeta {
    pub flac_meta_temp: u32,
}

pub struct FlacAudio {
    pub flac_audio_temp: u32,
}

impl FlacWriter {
    pub fn create_flac_info() {
        let _flac_file_info = FlacFileInfo::new();
    }

    pub fn gen_file() {
    }
}

impl FlacFileInfo {
    /// A fresh file record: the `fLaC` stream marker and empty
    /// metadata and audio sections.
    pub fn new() -> (r: Self)
        ensures
            r.flac_header == 0x664C6143u32,
            r.flac_meta.flac_meta_temp == 1,
            r.flac_audio.flac_audio_temp == 1,
    {
        FlacFileInfo {
            flac_header: 0x664C6143,
            flac_meta: FlacMeta::new(),
            flac_audio: FlacAudio::new(),
        }
    }
}

impl FlacMeta {
    pub fn new() -> (r: Self)
        ensures
            r.flac_meta_temp == 1,
    {
        FlacMeta { flac_meta_temp: 1 }
    }
}

impl FlacAudio {
    pub fn new() -> (r: Self)
        ensures
            r.flac_audio_temp == 1,
    {
        FlacAudio { flac_audio_temp: 1 }
    }
}

} // verus!
