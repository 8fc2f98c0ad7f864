//! World addressing, collision, floor transitions and cell ownership. Pure
//! functions and data only: integer arithmetic over caller-supplied
//! geometry. Addressing is `(x, y, floor, layer)`; `layer` plays no part in
//! collision -- a collision test only ever consults one floor's merged
//! blocking set.

pub mod bits;
pub mod chunk;
pub mod collision;
pub mod fixture;
pub mod walkability;

pub use collision::{AreaSpec, FloorCollision, MAX_CELLS_PER_FLOOR, Rect, cell_index};
pub use chunk::{CHUNK_SIZE, chunk_key, clip_rect_to_chunks, rect_is_within_one_chunk, unpack_chunk_key};
