//! Fixed-point amounts for a cross-chain swap form: a decimal codec between
//! display strings and integer units, rate conversions with round-half-up
//! and saturation, and the decisions behind the amount fields of the form.
pub mod decimal;
pub mod units;
pub mod amount_input;
pub mod swap_form;
pub mod faq;
