use multidb::number_text::sci_to_js;

fn js(value: f64) -> String {
    sci_to_js(&format!("{:e}", value.abs()), value < 0.0)
}

#[test]
fn doubles_print_like_javascript_numbers() {
    assert_eq!(js(3.0), "3");
    assert_eq!(js(3.5), "3.5");
    assert_eq!(js(0.1 + 0.2), "0.30000000000000004");
    assert_eq!(js(1e21), "1e+21");
    assert_eq!(js(123456789012.0), "123456789012");
    assert_eq!(js(0.000001), "0.000001");
    assert_eq!(js(0.0000001), "1e-7");
    assert_eq!(js(-42.25), "-42.25");
}

#[test]
fn the_layout_switches_at_21_places_and_six_zeros() {
    assert_eq!(js(1e20), "100000000000000000000");
    assert_eq!(js(1.5e21), "1.5e+21");
    assert_eq!(js(1.25e-6), "0.00000125");
    assert_eq!(js(1.25e-7), "1.25e-7");
    assert_eq!(sci_to_js("1.5", false), "1.5");
    assert_eq!(sci_to_js("7ex", true), "-7");
}
