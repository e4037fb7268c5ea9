//! Verified core of a small local language-model runtime: the tokenizer, the
//! checkpoint container, the slicing planner, the speculative decoding loop and
//! the integer kernels, each with a machine-checked contract.

// Bytes, texts, numbers and orders.
pub mod hash;
pub mod jsontext;
pub mod le;
pub mod names;
pub mod numtext;
pub mod rank;
pub mod seqs;
pub mod sort;
pub mod table;
pub mod text;
pub mod unicode;

// The tokenizer.
pub mod bpe;
pub mod byte_level;
pub mod chat;
pub mod pretokenize;
pub mod qwentok;
pub mod qwentok_laws;
pub mod qwentok_load;

// Checkpoints and what stands beside them.
pub mod binfile;
pub mod directory;
pub mod imatrix;
pub mod memory;
pub mod qwen_bind;
pub mod qwen_bind_laws;
pub mod route_store;
pub mod routes;
pub mod safetensors;
pub mod seam;
pub mod shadow;
pub mod spans;
pub mod weights;

// Number formats and integer kernels.
pub mod fp8;
pub mod minifloat;
pub mod mxfp4;
pub mod q8;
pub mod quant;

// Decoding.
pub mod attn_layout;
pub mod cache;
pub mod decode;
pub mod roots;
pub mod rosa;
pub mod speculative;
pub mod suffix;
pub mod suffix_grow;
pub mod tally;
pub mod work;

// Slicing a checkpoint.
pub mod score_cache;
pub mod slice_args;
pub mod slice_args_laws;
pub mod slice_config;
pub mod slice_config_laws;
pub mod slice_laws;
pub mod slice_order;
pub mod slice_plan;
pub mod slice_resume;
pub mod slice_roles;
pub mod slice_rows;
pub mod slice_source;
pub mod slice_vocab;
pub mod slice_vocab_laws;

// Command lines.
pub mod commands;
