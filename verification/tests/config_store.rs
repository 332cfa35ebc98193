use datara::config::{
    default_config, format_milli, parse_bool, parse_config, parse_milli, parse_row,
    render_config, DisplayConfig,
};

#[test]
fn defaults_render_to_fixed_lines() {
    let text = render_config(&default_config());
    assert_eq!(
        text,
        "ui_scale=1\nmax_items_per_row=3\nshow_scanlines=false\nshow_hidden=false\nhorizontal_spacing=16\nvertical_spacing=12\n"
    );
}

#[test]
fn saved_config_loads_back_unchanged() {
    let cfg = DisplayConfig {
        ui_scale_milli: 1500,
        max_items_per_row: 4,
        show_scanlines: true,
        show_hidden: true,
        horizontal_spacing_milli: 20500,
        vertical_spacing_milli: 12250,
    };
    let text = render_config(&cfg);
    assert_eq!(parse_config(&text), cfg);
}

#[test]
fn defaults_round_trip() {
    let cfg = default_config();
    assert_eq!(parse_config(&render_config(&cfg)), cfg);
}

#[test]
fn empty_text_gives_defaults() {
    assert_eq!(parse_config(""), default_config());
}

#[test]
fn unknown_keys_are_ignored() {
    let cfg = parse_config("bogus=12\nmax_items_per_row=4\ncolor=green\n");
    assert_eq!(cfg.max_items_per_row, 4);
    assert_eq!(cfg.ui_scale_milli, 1000);
    assert_eq!(cfg.horizontal_spacing_milli, 16000);
}

#[test]
fn unparseable_values_keep_defaults() {
    let cfg = parse_config("max_items_per_row=abc\nui_scale=oops\nshow_hidden=maybe\n");
    assert_eq!(cfg, default_config());
}

#[test]
fn lines_without_separator_are_ignored() {
    assert_eq!(parse_config("no separator here\n\n\n"), default_config());
}

#[test]
fn column_count_is_clamped() {
    assert_eq!(parse_config("max_items_per_row=9\n").max_items_per_row, 5);
    assert_eq!(parse_config("max_items_per_row=0\n").max_items_per_row, 2);
    assert_eq!(parse_config("max_items_per_row=-3\n").max_items_per_row, 2);
    assert_eq!(parse_config("max_items_per_row=2\n").max_items_per_row, 2);
}

#[test]
fn milli_values_format_as_decimals() {
    assert_eq!(format_milli(1000), "1");
    assert_eq!(format_milli(16000), "16");
    assert_eq!(format_milli(1500), "1.500");
    assert_eq!(format_milli(250), "0.250");
    assert_eq!(format_milli(0), "0");
}

#[test]
fn milli_values_parse_from_decimals() {
    assert_eq!(parse_milli("1"), Some(1000));
    assert_eq!(parse_milli("1.5"), Some(1500));
    assert_eq!(parse_milli("0.25"), Some(250));
    assert_eq!(parse_milli("2.125"), Some(2125));
    assert_eq!(parse_milli(""), None);
    assert_eq!(parse_milli("x"), None);
    assert_eq!(parse_milli("1.2345"), None);
    assert_eq!(parse_milli("1."), None);
    assert_eq!(parse_milli(".5"), None);
}

#[test]
fn bool_and_row_parsers() {
    assert_eq!(parse_bool("true"), Some(true));
    assert_eq!(parse_bool("false"), Some(false));
    assert_eq!(parse_bool("True"), None);
    assert_eq!(parse_row("3"), Some(3));
    assert_eq!(parse_row("700"), Some(5));
    assert_eq!(parse_row("-1"), Some(2));
    assert_eq!(parse_row(""), None);
    assert_eq!(parse_row("99999999999999999999"), None);
}
