//! A safe navigation and query layer over a protocol dissection tree: the
//! per-packet hierarchy a packet-analysis engine builds while decoding a
//! captured frame into nested protocol fields.

pub mod dfilter;
pub mod epan;
pub mod error;
pub mod fvalue;
pub mod proto;
pub mod tree;
pub mod wtap;

pub use dfilter::DFilter;
pub use epan::InnerEpanSession;
pub use epan::ParsedRec;
pub use epan::Session;
pub use error::Error;
pub use error::WsError;
pub use fvalue::FType;
pub use fvalue::FValue;
pub use proto::ProtoNode;
pub use proto::ProtoNodeBreadthFirstIter;
pub use proto::ProtoNodeChildrenIter;
pub use proto::ProtoNodeDepthFirstIter;
pub use wtap::Wtap;
pub use wtap::WtapRec;
pub use wtap::InnerWtapRec;
pub use tree::ProtoTree;
pub use tree::ProtoNodeData;
pub use tree::TreeBuilder;
pub use dfilter::CmpOp;
pub use dfilter::FExpr;
