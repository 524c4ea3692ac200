pub mod datas;
pub mod dbgout;
pub mod decode;
pub mod encode;
pub mod roundtrip;

pub use crate::datas::{parse_binary_to_tuple, pix_eq, Pixels, PIX};
pub use crate::dbgout::dbgout_convert as format_output;
pub use crate::decode::gen_dqoi as decode;
pub use crate::encode::gen_qoif as encode;
