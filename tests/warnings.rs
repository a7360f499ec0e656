use anvil::warnings::{
    active_warnings, Color, SevereThunderStormDamageThreat, SevereThunderStormWarning,
    TornadoStatus, TornadoWarning, WarningColor, WarningType,
};

fn tornado(status: TornadoStatus) -> TornadoWarning {
    TornadoWarning { tornado_status: status }
}

fn storm(threat: SevereThunderStormDamageThreat) -> WarningType {
    WarningType::SevereThunderStorm(SevereThunderStormWarning { damage_threat: threat })
}

#[test]
fn observed_tornado_colors() {
    let t = tornado(TornadoStatus::Observed);
    assert_eq!(WarningType::Tornado(t).get_color(), WarningColor { inner: Color::Black, outer: Color::Red });
    assert_eq!(WarningType::TornadoPDS(t).get_color(), WarningColor { inner: Color::Black, outer: Color::Magenta });
    assert_eq!(
        WarningType::TornadoEmergency(t).get_color(),
        WarningColor { inner: Color::Black, outer: Color::Purple }
    );
}

#[test]
fn radar_indicated_tornado_is_magenta() {
    let t = tornado(TornadoStatus::RadarIndicated);
    let magenta = WarningColor { inner: Color::Magenta, outer: Color::Magenta };
    assert_eq!(WarningType::Tornado(t).get_color(), magenta);
    assert_eq!(WarningType::TornadoPDS(t).get_color(), magenta);
    assert_eq!(WarningType::TornadoEmergency(t).get_color(), magenta);
}

#[test]
fn thunderstorm_colors() {
    assert_eq!(
        storm(SevereThunderStormDamageThreat::Destructive).get_color(),
        WarningColor { inner: Color::Red, outer: Color::Yellow }
    );
    let magenta = WarningColor { inner: Color::Magenta, outer: Color::Magenta };
    assert_eq!(storm(SevereThunderStormDamageThreat::Base).get_color(), magenta);
    assert_eq!(storm(SevereThunderStormDamageThreat::Considerable).get_color(), magenta);
}

#[test]
fn color_hex_codes() {
    let all = [
        (Color::Red, "#FF0000"),
        (Color::Orange, "#FF6700"),
        (Color::Yellow, "#FFFF00"),
        (Color::Green, "#00FF00"),
        (Color::LightBlue, "#00ffea"),
        (Color::Blue, "#0000FF"),
        (Color::Magenta, "#FF00FF"),
        (Color::Purple, "#7a007a"),
        (Color::Black, "#000000"),
        (Color::White, "#FFFFFF"),
    ];
    for (c, hex) in all {
        assert_eq!(c.to_string(), hex);
    }
}

#[test]
fn expired_warnings_are_left_out() {
    assert_eq!(active_warnings(&vec![100, 50, 200, 99], 100), vec![0, 2]);
    assert_eq!(active_warnings(&vec![], 0), Vec::<usize>::new());
    assert_eq!(active_warnings(&vec![1, 2, 3], 0), vec![0, 1, 2]);
    assert_eq!(active_warnings(&vec![1, 2, 3], 4), Vec::<usize>::new());
}
