//! Several operations at work at once: a world of threads that take turns
//! at single accesses (`world`), what holds in it at every moment
//! (`coherence`) and why (`effect`, `frame`, `steps`), what else holds of it
//! (`shelter`, `order`, `fifo`, `alone`), and the laws that follow (`laws`).
pub mod alone;
pub mod coherence;
pub mod effect;
pub mod fifo;
pub mod frame;
pub mod laws;
pub mod order;
pub mod shelter;
pub mod steps;
pub mod world;
