//! Operations that carry users' selections along with an edit.
pub mod charwise;
pub mod linewise;
