//! Real-time media transport over bare UDP.
//!
//! Media, parity and feedback share one datagram format, one socket and one
//! pacer. Nothing here does I/O or reads a clock: the host hands in datagrams
//! and instants, and sends what comes out.
//!
//! - [`packet`]: the datagram format.
//! - [`fragment`], [`reassembly`]: frames into datagrams, and back.
//! - [`fec`], [`parity`]: parity rows over datagrams, and recovery from them.
//! - [`send_queue`], [`pacer`]: what leaves next, and when.
//! - [`history`], [`nack`]: retransmission, and the requests for it.
//! - [`feedback`], [`bwe`]: arrival reports, and the rate that follows from
//!   them.
//! - [`jitter`]: when video frames are decoded and audio is played.
//! - [`codec`], [`track`], [`session`]: all of it together.
//! - [`delivery`]: what holds from end to end.
//! - [`laws`]: what holds of each part, in plain arithmetic.
//!
//! Every state machine has a model, a plain value that its view gives, and
//! spec functions on the model that say what each operation does. Contracts
//! equate the view after a call with what those functions make of the view
//! before it; laws are proof functions over the models.

pub mod bits;
pub mod bwe;
pub mod codec;
pub mod delivery;
pub mod fec;
pub mod feedback;
pub mod fragment;
pub mod history;
pub mod jitter;
pub mod laws;
pub mod nack;
pub mod octets;
pub mod pacer;
pub mod packet;
pub mod parity;
pub mod reassembly;
pub mod send_queue;
pub mod seqs;
pub mod session;
pub mod table;
pub mod text;
pub mod time;
pub mod track;
