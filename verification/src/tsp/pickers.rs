pub mod cycle_picker;
pub mod cycle_simultaneous_picker;
pub mod nearest_picker;
