pub mod bin_cache;
pub mod context;
pub mod dict;
pub mod encode;
pub mod fcitx_state;
pub mod fuzz_dict;
pub mod input_analyzer;
pub mod js_bridge;
pub mod lookup_code;
pub mod lsp;
pub mod position;
pub mod prefix_dict;
pub mod render;
pub mod sentence;
pub mod sort;
pub mod text;
pub mod typing;
