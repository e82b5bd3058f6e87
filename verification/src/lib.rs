//! Inference for Llama-style language models: from the weights of a model and the tokens of a
//! text to the next token, and conversations on top of it.
//!
//! Scalars are abstract. What an operation of the library computes is stated by the steps it
//! takes with the operations of [`arith::Arithmetic`], in the order in which it takes them, so
//! that it holds of rounded arithmetic too. [`laws`] states what holds of the library as a whole,
//! [`formulas`] what the operators compute entry by entry, and [`sampling_laws`],
//! [`loading_laws`], [`model_laws`] and [`session_laws`] what the parts built on them mean.

pub mod archive;
pub mod arith;
pub mod attention;
pub mod causality;
pub mod config;
pub mod determined;
pub mod formulas;
pub mod kvcache;
pub mod laws;
pub mod layout;
pub mod loading_laws;
pub mod manager;
pub mod model;
pub mod model_laws;
pub mod operators;
pub mod params;
pub mod passes;
pub mod pieces;
pub mod sampling;
pub mod sampling_laws;
pub mod session;
pub mod session_laws;
pub mod tensor;
pub mod text;
