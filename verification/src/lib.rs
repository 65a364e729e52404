pub mod ascii;
pub mod codec;
pub mod cri;
pub mod dispatch;
pub mod json;
pub mod metadata;
pub mod parser;
pub mod path;
pub mod sys;
pub mod tail;
pub mod time;
pub mod transport;
pub mod watch;
