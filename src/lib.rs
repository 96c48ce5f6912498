// A plain-text ledger engine: files that include one another are walked breadth-first into one
// stream of directives (`loader`, over the paths of `locator`), new directives are placed in the
// right file and kept reachable from the root file (`writer`), storage settings and reads are
// checked (`storage`), and live listeners are told of changes (`broadcast`).

pub mod broadcast;
pub mod directive;
pub mod loader;
pub mod locator;
pub mod request;
pub mod storage;
pub mod writer;
