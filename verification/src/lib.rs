pub mod alarm;
pub mod alarm_heap;
pub mod api;
pub mod json;
pub mod listener;
