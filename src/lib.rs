pub mod combine;
pub mod component;
pub mod decimal;
pub mod error;
pub mod format;
pub mod measurement;
pub mod prefix;
pub mod records;
pub mod roots;
pub mod stats;
pub mod text;

pub use combine::Uncert;
pub use component::{prs_comp, std_dev_from_line, Component, Distribution, Evaluation, Source};
pub use decimal::{parse_decimal, Decimal};
pub use error::ErrorKind;
pub use format::get_2_sig_fig;
pub use measurement::{get_meas, Measurement};
pub use prefix::{get_uncert_unit, match_magnitude, match_prefix};
pub use records::get_measurement;
pub use roots::Root;
