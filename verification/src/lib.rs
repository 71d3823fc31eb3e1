pub mod audio;
pub mod config;
pub mod crop;
pub mod encode;
pub mod ext;
pub mod ffms2;
pub mod fingerprint;
pub mod hdr;
pub mod ieee;
pub mod job;
pub mod measure;
pub mod mux;
pub mod number;
pub mod order;
pub mod paths;
pub mod pipeline;
pub mod plan;
pub mod resume;
pub mod scanner;
pub mod scene;
pub mod strmap;
pub mod subtitle;
pub mod target_quality;
pub mod text;
pub mod validate;
pub mod vmaf;
pub mod workers;
pub mod y4m;
