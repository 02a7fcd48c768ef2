use absh::bars::plot;
use absh::bars::plot_halves;
use absh::bars::plot_halves_u64;
use absh::bars::plot_u64;
use absh::bars::value_to_bucket;
use absh::bars::PlotHighlight;

// The quantizer works on any fixed-point scale; these values carry one
// decimal digit, so 3.0 is written 30.
#[test]
fn test_f64_to_range() {
    assert_eq!(Some(7), value_to_bucket(-90, 30, 60, 7, 9));
    assert_eq!(Some(7), value_to_bucket(29, 30, 60, 7, 9));
    assert_eq!(Some(7), value_to_bucket(30, 30, 60, 7, 9));
    assert_eq!(Some(7), value_to_bucket(39, 30, 60, 7, 9));
    assert_eq!(Some(8), value_to_bucket(41, 30, 60, 7, 9));
    assert_eq!(Some(8), value_to_bucket(49, 30, 60, 7, 9));
    assert_eq!(Some(9), value_to_bucket(51, 30, 60, 7, 9));
    assert_eq!(Some(9), value_to_bucket(59, 30, 60, 7, 9));
    assert_eq!(Some(9), value_to_bucket(61, 30, 60, 7, 9));
    assert_eq!(Some(9), value_to_bucket(990, 30, 60, 7, 9));
}

#[test]
fn bucket_degenerate_range() {
    assert_eq!(None, value_to_bucket(5, 5, 5, 0, 8));
    assert_eq!(Some(8), value_to_bucket(6, 5, 5, 0, 8));
    assert_eq!(Some(0), value_to_bucket(4, 5, 5, 0, 8));
}

#[test]
fn test_plot() {
    assert_eq!(
        "   ▁▁▂▃▄▅▆▇███",
        plot(
            &[0, 1, 9, 11, 19, 21, 31, 41, 51, 61, 71, 81, 89, 90],
            0,
            90
        )
    );
}

#[test]
fn test_plot_u64() {
    let highlight = PlotHighlight {
        non_zero: "<".to_owned(),
        zero: "[".to_owned(),
        reset: "!".to_owned(),
    };
    assert_eq!(
        "[  !<▄ █![ !",
        plot_u64(&[0, 0, 10, 0, 20, 0], 20, &highlight)
    );
}

#[test]
fn test_plot_halves() {
    assert_eq!(" ▟█", plot_halves(&[30, 39, 41, 51, 51, 60], 30, 60));
}

#[test]
fn test_plot_halves_u64() {
    let highlight = PlotHighlight {
        non_zero: "<".to_owned(),
        zero: "[".to_owned(),
        reset: "!".to_owned(),
    };
    assert_eq!(
        "[ !<▟![ !",
        plot_halves_u64(&[0, 0, 10, 20, 0, 0], 20, &highlight)
    );
    assert_eq!("[ !<▟![!", plot_halves_u64(&[0, 0, 10, 20], 20, &highlight));
}

#[test]
fn plot_nan_fallback() {
    // with a degenerate range, a value equal to it has no level
    assert_eq!("?", plot(&[5], 5, 5));
}
