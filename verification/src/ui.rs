pub mod tab_bar;
