use rim_sim::calendar::Time;
use rim_sim::defs::CalendarDef;

fn seasons4() -> CalendarDef {
    CalendarDef {
        id: "core:calendar".to_string(),
        year_days: 60,
        seasons: vec!["spring".into(), "summer".into(), "autumn".into(), "winter".into()],
        start_day: 10,
    }
}

const DAY: u64 = 20_000;

#[test]
fn the_game_starts_on_the_calendars_start_day() {
    let c = seasons4();
    let t = Time { tick: 0, seed: 1, calendar: &c };
    assert_eq!(t.day(), 0);
    assert_eq!(t.day_of_year(), 10);
    assert_eq!(t.season(), "spring");
    assert_eq!(t.day_of_season(), 11);
    assert_eq!(t.year(), 0);
}

#[test]
fn seasons_split_the_year_evenly() {
    let c = seasons4();
    let t = Time { tick: 20 * DAY, seed: 1, calendar: &c };
    assert_eq!(t.day_of_year(), 30);
    assert_eq!(t.season_index(), 2);
    assert_eq!(t.day_of_season(), 1);
    assert_eq!(t.season_index_at(35 * DAY), 3);
    let later = Time { tick: 50 * DAY + 5, seed: 1, calendar: &c };
    assert_eq!(later.year(), 1);
    assert_eq!(later.day_of_year(), 0);
    assert_eq!(later.season(), "spring");
    assert_eq!(later.day_of_season(), 1);
}

#[test]
fn uneven_seasons_start_on_the_day_their_share_reaches() {
    let c = CalendarDef { id: "x".into(), year_days: 60, seasons: (0..7).map(|i| i.to_string()).collect(), start_day: 0 };
    // Season 1 covers days 9 to 17: 60/7 is 8.57, so it starts on day 9.
    let t = Time { tick: 9 * DAY, seed: 0, calendar: &c };
    assert_eq!(t.season_index(), 1);
    assert_eq!(t.day_of_season(), 1);
    let t = Time { tick: 8 * DAY, seed: 0, calendar: &c };
    assert_eq!(t.season_index(), 0);
    assert_eq!(t.day_of_season(), 9);
}

#[test]
fn tick_zero_is_six_in_the_morning() {
    let c = seasons4();
    let clock = Time { tick: 0, seed: 9, calendar: &c }.clock();
    assert_eq!(clock.hour, 6 * 10_000);
    assert_eq!(clock.year, 10 * 10_000 / 60);
    assert_eq!(clock.seed, 9);
    let noon = Time { tick: DAY / 4, seed: 9, calendar: &c }.clock();
    assert_eq!(noon.hour, 12 * 10_000);
    let midnight = Time { tick: 3 * DAY / 4, seed: 9, calendar: &c }.clock();
    assert_eq!(midnight.hour, 0);
}
