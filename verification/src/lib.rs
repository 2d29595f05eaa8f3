//! Gateway core for ultra-wideband ranging anchors: frame recovery from
//! serial byte streams, the packet layouts, the alignment of the anchors'
//! reports into batches, the selection of the measurements that enter the
//! position estimate, and the decisions of the event loop around them.

pub mod command_line;
pub mod configuration;
pub mod optimization;
pub mod packet;
pub mod pipeline;
pub mod proto;
pub mod stream_decoder;
pub mod synchronizer;
pub mod wire;
