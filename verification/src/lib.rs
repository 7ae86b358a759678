//! Verified core of the Folkering OS userspace services.
pub mod bump;
pub mod bytes;
pub mod chars;
pub mod chat;
pub mod config;
pub mod counter;
pub mod daemon;
pub mod debug_dump;
pub mod decode;
pub mod draug;
pub mod draug_analysis;
pub mod draug_store;
pub mod dream;
pub mod dream_prompt;
pub mod first_blood;
pub mod forward;
pub mod friction;
pub mod gguf_loader;
pub mod handlers;
pub mod hunt;
pub mod inference_wire;
pub mod intent_router;
pub mod intent_types;
pub mod intents;
pub mod mining;
pub mod model_weights;
pub mod nucleus;
pub mod phase_c;
pub mod prevalidate;
pub mod prng;
pub mod project;
pub mod protocol;
pub mod refactor_loop;
pub mod refactor_step;
pub mod refactor_types;
pub mod selftest;
pub mod semantic_router;
pub mod skill_prompt;
pub mod stream;
pub mod stream_handler;
pub mod streamer;
pub mod tensor;
pub mod text;
pub mod tokenizer;
pub mod topk;
pub mod vfs;
pub mod weights;
pub mod widgets;
pub mod window_draw;
pub mod window_manager;
