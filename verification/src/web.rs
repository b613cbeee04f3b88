//! The web service: how it is set up, which requests it takes, and what it
//! answers. It only encrypts, and it writes nothing to a disk.

pub mod error;
pub mod guard;
pub mod respond;
pub mod sanitize;
pub mod settings;
pub mod upload;

pub use error::{ApiError, JsonReply};
pub use guard::{
    check_same_origin, constant_time_eq, handle, healthcheck, request_guard, request_length,
    security_headers, RequestHead,
};
pub use respond::{
    answer_upload, encrypt_handler, encrypt_in_memory, interruption, EncryptedReply, Interruption,
};
pub use sanitize::sanitize_filename;
pub use settings::{config, env_usize, refuse_root, settings, Settings};
pub use upload::{read_upload, Upload, UploadAsk, UploadEvent, UploadForm, UploadStep};
