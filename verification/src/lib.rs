//! SarnautCore data tooling: identifier minting, reference resolution,
//! overlay merging and the runtime table container, with their contracts.

pub mod text;
pub mod bytes;
pub mod digest;
pub mod table;
pub mod encoding;
pub mod reference;
pub mod scan;
pub mod script;
pub mod tiers;
pub mod loot;
pub mod source;
pub mod refs;
pub mod overlay;
pub mod report;
pub mod pack;
pub mod census;
pub mod objective;
pub mod model;
pub mod store;
pub mod opcodes;
pub mod reach;
pub mod convert;
pub mod scope;
pub mod xml;
pub mod faction;
pub mod item;
pub mod parse;
pub mod locale;
pub mod mobkind;
pub mod quest;
pub mod mob;
pub mod spawn;
pub mod zone;
pub mod assemble;
pub mod compile;
pub mod loottree;
pub mod taxonomy;
