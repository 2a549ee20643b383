pub mod accuracy;
pub mod additivity;
pub mod args;
pub mod axis_laws;
pub mod binary64;
pub mod counter_laws;
pub mod decade;
pub mod decimal;
pub mod derive;
pub mod detail;
pub mod figure_laws;
pub mod figures;
pub mod fill_laws;
pub mod fixed;
pub mod freeze_laws;
pub mod graph_laws;
pub mod graphs;
pub mod grid_laws;
pub mod history;
pub mod key_laws;
pub mod latency_laws;
pub mod laws;
pub mod lines;
pub mod merge_laws;
pub mod metrics;
pub mod natural;
pub mod order;
pub mod panels;
pub mod payload_laws;
pub mod plot;
pub mod quantile_laws;
pub mod rounding;
pub mod scrape;
pub mod scrape_laws;
pub mod screen;
pub mod screen_laws;
pub mod series;
pub mod session_laws;
pub mod shown_laws;
pub mod stall_laws;
pub mod text;
pub mod tour;
pub mod ui;
pub mod window_laws;
