use vstd::prelude::*;

pub mod agenda;
pub mod civil;
pub mod device;
pub mod ical;
pub mod pixels;
pub mod render;
pub mod taxi;
pub mod text;

verus! {
}
