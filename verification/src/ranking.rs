//! Monthly health scoring and cross-line ranking.
//!
//! Each calendar month with business days inside the configured range is
//! scored 0 to 100 from its missing days, invalid files, anomalies and
//! empty files.  Scores are exact rationals: every score of the form
//! `100 * (1 - penalty / (10 * expected_weekdays))` has a denominator
//! dividing `SCORE_SCALE`, so a score is stored as the integer
//! `score * SCORE_SCALE`, and 100 points is `100 * SCORE_SCALE`.

use vstd::prelude::*;
use crate::date::{
    Date, date_valid, date_le, date_lt, next_date_of, is_business_day, days_in_month_of,
    day_number_of, days_in_month, date_before_eq, date_before, next_day, weekday,
    lemma_next_day_tight, lemma_day_number_next, lemma_day_number_monotone,
};
use crate::record::{FileEntry, extract_date_spec, extract_date_from_dir};
use crate::gaps::GapReport;
use crate::stats::{Anomaly, AnomalyReport, group_sizes, count_below};
use crate::ratio::Ratio;

verus! {

/// `10 * lcm(1, .., 31)`: every health score, whose denominator is ten
/// times the month's expected weekdays, is an integer multiple of
/// `1 / SCORE_SCALE`.
pub const SCORE_SCALE: u64 = 722017764468000;

/// The weighted penalty of a month: 10 per missing day, 3 per invalid
/// file, 2 per anomaly, 1 per empty file.
pub open spec fn penalty_of(missing: int, invalid: int, anomalies: int, empty: int) -> int {
    10 * missing + 3 * invalid + 2 * anomalies + empty
}

/// The health score of a month, scaled by `SCORE_SCALE`:
/// `100 * (1 - penalty / max_penalty) * SCORE_SCALE` with
/// `max_penalty = 10 * expected_weekdays`, clamped to zero from below
/// (it can never exceed 100).
pub open spec fn score_scaled_of(penalty: int, expected_weekdays: int) -> int {
    if expected_weekdays <= 0 {
        0
    } else {
        let mp = 10 * expected_weekdays;
        if penalty >= mp {
            0
        } else {
            (mp - penalty) * 100 * (SCORE_SCALE as int / mp)
        }
    }
}

/// `10 * ew` divides `SCORE_SCALE` for every possible count of expected
/// weekdays in one month.
pub proof fn lemma_scale_divisible(ew: int)
    requires
        1 <= ew <= 31,
    ensures
        (10 * ew) * (SCORE_SCALE as int / (10 * ew)) == SCORE_SCALE as int,
{
    if ew == 1 {
        vstd::arithmetic::div_mod::lemma_fundamental_div_mod_converse_div(
            722017764468000, 10, 72201776446800, 0,
        );
        assert(722017764468000int == 72201776446800int * 10 + 0);
        assert(SCORE_SCALE as int / (10 * ew) == 72201776446800);
        assert((10 * ew) * (SCORE_SCALE as int / (10 * ew)) == SCORE_SCALE as int)
            by (nonlinear_arith)
            requires
                ew == 1,
                SCORE_SCALE as int / (10 * ew) == 72201776446800,
        ;
    } else if ew == 2 {
        vstd::arithmetic::div_mod::lemma_fundamental_div_mod_converse_div(
            722017764468000, 20, 36100888223400, 0,
        );
        assert(722017764468000int == 36100888223400int * 20 + 0);
        assert(SCORE_SCALE as int / (10 * ew) == 36100888223400);
        assert((10 * ew) * (SCORE_SCALE as int / (10 * ew)) == SCORE_SCALE as int)
            by (nonlinear_arith)
            requires
                ew == 2,
                SCORE_SCALE as int / (10 * ew) == 36100888223400,
        ;
    } else if ew == 3 {
        vstd::arithmetic::div_mod::lemma_fundamental_div_mod_converse_div(
            722017764468000, 30, 24067258815600, 0,
        );
        assert(722017764468000int == 24067258815600int * 30 + 0);
        assert(SCORE_SCALE as int / (10 * ew) == 24067258815600);
        assert((10 * ew) * (SCORE_SCALE as int / (10 * ew)) == SCORE_SCALE as int)
            by (nonlinear_arith)
            requires
                ew == 3,
                SCORE_SCALE as int / (10 * ew) == 24067258815600,
        ;
    } else if ew == 4 {
        vstd::arithmetic::div_mod::lemma_fundamental_div_mod_converse_div(
            722017764468000, 40, 18050444111700, 0,
        );
        assert(722017764468000int == 18050444111700int * 40 + 0);
        assert(SCORE_SCALE as int / (10 * ew) == 18050444111700);
        assert((10 * ew) * (SCORE_SCALE as int / (10 * ew)) == SCORE_SCALE as int)
            by (nonlinear_arith)
            requires
                ew == 4,
                SCORE_SCALE as int / (10 * ew) == 18050444111700,
        ;
    } else if ew == 5 {
        vstd::arithmetic::div_mod::lemma_fundamental_div_mod_converse_div(
            722017764468000, 50, 14440355289360, 0,
        );
        assert(722017764468000int == 14440355289360int * 50 + 0);
        assert(SCORE_SCALE as int / (10 * ew) == 14440355289360);
        assert((10 * ew) * (SCORE_SCALE as int / (10 * ew)) == SCORE_SCALE as int)
            by (nonlinear_arith)
            requires
                ew == 5,
                SCORE_SCALE as int / (10 * ew) == 14440355289360,
        ;
    } else if ew == 6 {
        vstd::arithmetic::div_mod::lemma_fundamental_div_mod_converse_div(
            722017764468000, 60, 12033629407800, 0,
        );
        assert(722017764468000int == 12033629407800int * 60 + 0);
        assert(SCORE_SCALE as int / (10 * ew) == 12033629407800);
        assert((10 * ew) * (SCORE_SCALE as int / (10 * ew)) == SCORE_SCALE as int)
            by (nonlinear_arith)
            requires
                ew == 6,
                SCORE_SCALE as int / (10 * ew) == 12033629407800,
        ;
    } else if ew == 7 {
        vstd::arithmetic::div_mod::lemma_fundamental_div_mod_converse_div(
            722017764468000, 70, 10314539492400, 0,
        );
        assert(722017764468000int == 10314539492400int * 70 + 0);
        assert(SCORE_SCALE as int / (10 * ew) == 10314539492400);
        assert((10 * ew) * (SCORE_SCALE as int / (10 * ew)) == SCORE_SCALE as int)
            by (nonlinear_arith)
            requires
                ew == 7,
                SCORE_SCALE as int / (10 * ew) == 10314539492400,
        ;
    } else if ew == 8 {
        vstd::arithmetic::div_mod::lemma_fundamental_div_mod_converse_div(
            722017764468000, 80, 9025222055850, 0,
        );
        assert(722017764468000int == 9025222055850int * 80 + 0);
        assert(SCORE_SCALE as int / (10 * ew) == 9025222055850);
        assert((10 * ew) * (SCORE_SCALE as int / (10 * ew)) == SCORE_SCALE as int)
            by (nonlinear_arith)
            requires
                ew == 8,
                SCORE_SCALE as int / (10 * ew) == 9025222055850,
        ;
    } else if ew == 9 {
        vstd::arithmetic::div_mod::lemma_fundamental_div_mod_converse_div(
            722017764468000, 90, 8022419605200, 0,
        );
        assert(722017764468000int == 8022419605200int * 90 + 0);
        assert(SCORE_SCALE as int / (10 * ew) == 8022419605200);
        assert((10 * ew) * (SCORE_SCALE as int / (10 * ew)) == SCORE_SCALE as int)
            by (nonlinear_arith)
            requires
                ew == 9,
                SCORE_SCALE as int / (10 * ew) == 8022419605200,
        ;
    } else if ew == 10 {
        vstd::arithmetic::div_mod::lemma_fundamental_div_mod_converse_div(
            722017764468000, 100, 7220177644680, 0,
        );
        assert(722017764468000int == 7220177644680int * 100 + 0);
        assert(SCORE_SCALE as int / (10 * ew) == 7220177644680);
        assert((10 * ew) * (SCORE_SCALE as int / (10 * ew)) == SCORE_SCALE as int)
            by (nonlinear_arith)
            requires
                ew == 10,
                SCORE_SCALE as int / (10 * ew) == 7220177644680,
        ;
    } else if ew == 11 {
        vstd::arithmetic::div_mod::lemma_fundamental_div_mod_converse_div(
            722017764468000, 110, 6563797858800, 0,
        );
        assert(722017764468000int == 6563797858800int * 110 + 0);
        assert(SCORE_SCALE as int / (10 * ew) == 6563797858800);
        assert((10 * ew) * (SCORE_SCALE as int / (10 * ew)) == SCORE_SCALE as int)
            by (nonlinear_arith)
            requires
                ew == 11,
                SCORE_SCALE as int / (10 * ew) == 6563797858800,
        ;
    } else if ew == 12 {
        vstd::arithmetic::div_mod::lemma_fundamental_div_mod_converse_div(
            722017764468000, 120, 6016814703900, 0,
        );
        assert(722017764468000int == 6016814703900int * 120 + 0);
        assert(SCORE_SCALE as int / (10 * ew) == 6016814703900);
        assert((10 * ew) * (SCORE_SCALE as int / (10 * ew)) == SCORE_SCALE as int)
            by (nonlinear_arith)
            requires
                ew == 12,
                SCORE_SCALE as int / (10 * ew) == 6016814703900,
        ;
    } else if ew == 13 {
        vstd::arithmetic::div_mod::lemma_fundamental_div_mod_converse_div(
            722017764468000, 130, 5553982803600, 0,
        );
        assert(722017764468000int == 5553982803600int * 130 + 0);
        assert(SCORE_SCALE as int / (10 * ew) == 5553982803600);
        assert((10 * ew) * (SCORE_SCALE as int / (10 * ew)) == SCORE_SCALE as int)
            by (nonlinear_arith)
            requires
                ew == 13,
                SCORE_SCALE as int / (10 * ew) == 5553982803600,
        ;
    } else if ew == 14 {
        vstd::arithmetic::div_mod::lemma_fundamental_div_mod_converse_div(
            722017764468000, 140, 5157269746200, 0,
        );
        assert(722017764468000int == 5157269746200int * 140 + 0);
        assert(SCORE_SCALE as int / (10 * ew) == 5157269746200);
        assert((10 * ew) * (SCORE_SCALE as int / (10 * ew)) == SCORE_SCALE as int)
            by (nonlinear_arith)
            requires
                ew == 14,
                SCORE_SCALE as int / (10 * ew) == 5157269746200,
        ;
    } else if ew == 15 {
        vstd::arithmetic::div_mod::lemma_fundamental_div_mod_converse_div(
            722017764468000, 150, 4813451763120, 0,
        );
        assert(722017764468000int == 4813451763120int * 150 + 0);
        assert(SCORE_SCALE as int / (10 * ew) == 4813451763120);
        assert((10 * ew) * (SCORE_SCALE as int / (10 * ew)) == SCORE_SCALE as int)
            by (nonlinear_arith)
            requires
                ew == 15,
                SCORE_SCALE as int / (10 * ew) == 4813451763120,
        ;
    } else if ew == 16 {
        vstd::arithmetic::div_mod::lemma_fundamental_div_mod_converse_div(
            722017764468000, 160, 4512611027925, 0,
        );
        assert(722017764468000int == 4512611027925int * 160 + 0);
        assert(SCORE_SCALE as int / (10 * ew) == 4512611027925);
        assert((10 * ew) * (SCORE_SCALE as int / (10 * ew)) == SCORE_SCALE as int)
            by (nonlinear_arith)
            requires
                ew == 16,
                SCORE_SCALE as int / (10 * ew) == 4512611027925,
        ;
    } else if ew == 17 {
        vstd::arithmetic::div_mod::lemma_fundamental_div_mod_converse_div(
            722017764468000, 170, 4247163320400, 0,
        );
        assert(722017764468000int == 4247163320400int * 170 + 0);
        assert(SCORE_SCALE as int / (10 * ew) == 4247163320400);
        assert((10 * ew) * (SCORE_SCALE as int / (10 * ew)) == SCORE_SCALE as int)
            by (nonlinear_arith)
            requires
                ew == 17,
                SCORE_SCALE as int / (10 * ew) == 4247163320400,
        ;
    } else if ew == 18 {
        vstd::arithmetic::div_mod::lemma_fundamental_div_mod_converse_div(
            722017764468000, 180, 4011209802600, 0,
        );
        assert(722017764468000int == 4011209802600int * 180 + 0);
        assert(SCORE_SCALE as int / (10 * ew) == 4011209802600);
        assert((10 * ew) * (SCORE_SCALE as int / (10 * ew)) == SCORE_SCALE as int)
            by (nonlinear_arith)
            requires
                ew == 18,
                SCORE_SCALE as int / (10 * ew) == 4011209802600,
        ;
    } else if ew == 19 {
        vstd::arithmetic::div_mod::lemma_fundamental_div_mod_converse_div(
            722017764468000, 190, 3800093497200, 0,
        );
        assert(722017764468000int == 3800093497200int * 190 + 0);
        assert(SCORE_SCALE as int / (10 * ew) == 3800093497200);
        assert((10 * ew) * (SCORE_SCALE as int / (10 * ew)) == SCORE_SCALE as int)
            by (nonlinear_arith)
            requires
                ew == 19,
                SCORE_SCALE as int / (10 * ew) == 3800093497200,
        ;
    } else if ew == 20 {
        vstd::arithmetic::div_mod::lemma_fundamental_div_mod_converse_div(
            722017764468000, 200, 3610088822340, 0,
        );
        assert(722017764468000int == 3610088822340int * 200 + 0);
        assert(SCORE_SCALE as int / (10 * ew) == 3610088822340);
        assert((10 * ew) * (SCORE_SCALE as int / (10 * ew)) == SCORE_SCALE as int)
            by (nonlinear_arith)
            requires
                ew == 20,
                SCORE_SCALE as int / (10 * ew) == 3610088822340,
        ;
    } else if ew == 21 {
        vstd::arithmetic::div_mod::lemma_fundamental_div_mod_converse_div(
            722017764468000, 210, 3438179830800, 0,
        );
        assert(722017764468000int == 3438179830800int * 210 + 0);
        assert(SCORE_SCALE as int / (10 * ew) == 3438179830800);
        assert((10 * ew) * (SCORE_SCALE as int / (10 * ew)) == SCORE_SCALE as int)
            by (nonlinear_arith)
            requires
                ew == 21,
                SCORE_SCALE as int / (10 * ew) == 3438179830800,
        ;
    } else if ew == 22 {
        vstd::arithmetic::div_mod::lemma_fundamental_div_mod_converse_div(
            722017764468000, 220, 3281898929400, 0,
        );
        assert(722017764468000int == 3281898929400int * 220 + 0);
        assert(SCORE_SCALE as int / (10 * ew) == 3281898929400);
        assert((10 * ew) * (SCORE_SCALE as int / (10 * ew)) == SCORE_SCALE as int)
            by (nonlinear_arith)
            requires
                ew == 22,
                SCORE_SCALE as int / (10 * ew) == 3281898929400,
        ;
    } else if ew == 23 {
        vstd::arithmetic::div_mod::lemma_fundamental_div_mod_converse_div(
            722017764468000, 230, 3139207671600, 0,
        );
        assert(722017764468000int == 3139207671600int * 230 + 0);
        assert(SCORE_SCALE as int / (10 * ew) == 3139207671600);
        assert((10 * ew) * (SCORE_SCALE as int / (10 * ew)) == SCORE_SCALE as int)
            by (nonlinear_arith)
            requires
                ew == 23,
                SCORE_SCALE as int / (10 * ew) == 3139207671600,
        ;
    } else if ew == 24 {
        vstd::arithmetic::div_mod::lemma_fundamental_div_mod_converse_div(
            722017764468000, 240, 3008407351950, 0,
        );
        assert(722017764468000int == 3008407351950int * 240 + 0);
        assert(SCORE_SCALE as int / (10 * ew) == 3008407351950);
        assert((10 * ew) * (SCORE_SCALE as int / (10 * ew)) == SCORE_SCALE as int)
            by (nonlinear_arith)
            requires
                ew == 24,
                SCORE_SCALE as int / (10 * ew) == 3008407351950,
        ;
    } else if ew == 25 {
        vstd::arithmetic::div_mod::lemma_fundamental_div_mod_converse_div(
            722017764468000, 250, 2888071057872, 0,
        );
        assert(722017764468000int == 2888071057872int * 250 + 0);
        assert(SCORE_SCALE as int / (10 * ew) == 2888071057872);
        assert((10 * ew) * (SCORE_SCALE as int / (10 * ew)) == SCORE_SCALE as int)
            by (nonlinear_arith)
            requires
                ew == 25,
                SCORE_SCALE as int / (10 * ew) == 2888071057872,
        ;
    } else if ew == 26 {
        vstd::arithmetic::div_mod::lemma_fundamental_div_mod_converse_div(
            722017764468000, 260, 2776991401800, 0,
        );
        assert(722017764468000int == 2776991401800int * 260 + 0);
        assert(SCORE_SCALE as int / (10 * ew) == 2776991401800);
        assert((10 * ew) * (SCORE_SCALE as int / (10 * ew)) == SCORE_SCALE as int)
            by (nonlinear_arith)
            requires
                ew == 26,
                SCORE_SCALE as int / (10 * ew) == 2776991401800,
        ;
    } else if ew == 27 {
        vstd::arithmetic::div_mod::lemma_fundamental_div_mod_converse_div(
            722017764468000, 270, 2674139868400, 0,
        );
        assert(722017764468000int == 2674139868400int * 270 + 0);
        assert(SCORE_SCALE as int / (10 * ew) == 2674139868400);
        assert((10 * ew) * (SCORE_SCALE as int / (10 * ew)) == SCORE_SCALE as int)
            by (nonlinear_arith)
            requires
                ew == 27,
                SCORE_SCALE as int / (10 * ew) == 2674139868400,
        ;
    } else if ew == 28 {
        vstd::arithmetic::div_mod::lemma_fundamental_div_mod_converse_div(
            722017764468000, 280, 2578634873100, 0,
        );
        assert(722017764468000int == 2578634873100int * 280 + 0);
        assert(SCORE_SCALE as int / (10 * ew) == 2578634873100);
        assert((10 * ew) * (SCORE_SCALE as int / (10 * ew)) == SCORE_SCALE as int)
            by (nonlinear_arith)
            requires
                ew == 28,
                SCORE_SCALE as int / (10 * ew) == 2578634873100,
        ;
    } else if ew == 29 {
        vstd::arithmetic::div_mod::lemma_fundamental_div_mod_converse_div(
            722017764468000, 290, 2489716429200, 0,
        );
        assert(722017764468000int == 2489716429200int * 290 + 0);
        assert(SCORE_SCALE as int / (10 * ew) == 2489716429200);
        assert((10 * ew) * (SCORE_SCALE as int / (10 * ew)) == SCORE_SCALE as int)
            by (nonlinear_arith)
            requires
                ew == 29,
                SCORE_SCALE as int / (10 * ew) == 2489716429200,
        ;
    } else if ew == 30 {
        vstd::arithmetic::div_mod::lemma_fundamental_div_mod_converse_div(
            722017764468000, 300, 2406725881560, 0,
        );
        assert(722017764468000int == 2406725881560int * 300 + 0);
        assert(SCORE_SCALE as int / (10 * ew) == 2406725881560);
        assert((10 * ew) * (SCORE_SCALE as int / (10 * ew)) == SCORE_SCALE as int)
            by (nonlinear_arith)
            requires
                ew == 30,
                SCORE_SCALE as int / (10 * ew) == 2406725881560,
        ;
    } else {
        assert(ew == 31);
        vstd::arithmetic::div_mod::lemma_fundamental_div_mod_converse_div(
            722017764468000, 310, 2329089562800, 0,
        );
        assert(722017764468000int == 2329089562800int * 310 + 0);
        assert(SCORE_SCALE as int / (10 * ew) == 2329089562800);
        assert((10 * ew) * (SCORE_SCALE as int / (10 * ew)) == SCORE_SCALE as int);
    }
}

/// A month with no penalties and at least one expected weekday scores
/// exactly 100 points.
pub proof fn lemma_perfect_month_scores_full(ew: int)
    requires
        1 <= ew <= 31,
    ensures
        score_scaled_of(penalty_of(0, 0, 0, 0), ew) == 100 * SCORE_SCALE,
{
    lemma_scale_divisible(ew);
    let mp = 10 * ew;
    let q = SCORE_SCALE as int / mp;
    assert(mp * q == SCORE_SCALE as int);
    assert((mp - 0) * 100 * q == 100 * (mp * q)) by (nonlinear_arith);
}

/// A month whose expected weekdays are all missing scores zero, whatever
/// else went wrong.
pub proof fn lemma_all_missing_scores_zero(ew: int, invalid: int, anomalies: int, empty: int)
    requires
        0 <= invalid,
        0 <= anomalies,
        0 <= empty,
    ensures
        score_scaled_of(penalty_of(ew, invalid, anomalies, empty), ew) == 0,
{
}

/// The score never exceeds 100 points and is never negative.
pub proof fn lemma_score_in_range(penalty: int, ew: int)
    requires
        0 <= penalty,
        ew <= 31,
    ensures
        0 <= score_scaled_of(penalty, ew) <= 100 * SCORE_SCALE,
{
    if ew >= 1 && penalty < 10 * ew {
        lemma_scale_divisible(ew);
        let mp = 10 * ew;
        let q = SCORE_SCALE as int / mp;
        assert(mp * q == SCORE_SCALE as int);
        assert(q >= 0) by (nonlinear_arith)
            requires
                mp * q == SCORE_SCALE as int,
                1 <= mp,
        ;
        assert(0 <= (mp - penalty) * 100 * q <= 100 * (mp * q)) by (nonlinear_arith)
            requires
                0 < mp - penalty <= mp,
                0 <= q,
        ;
    }
}

/// One calendar month's rollup for one line.  `health_score` is the
/// score scaled by `SCORE_SCALE`: a perfect month holds
/// `100 * SCORE_SCALE`.
#[derive(Debug, Clone, Copy, PartialEq, Eq, Structural)]
pub struct MonthlyMetrics {
    pub year: i32,
    pub month: u32,
    pub missing_days: usize,
    pub anomaly_count: usize,
    pub invalid_files: usize,
    pub empty_files: usize,
    pub expected_weekdays: usize,
    pub actual_archives: usize,
    pub health_score: u64,
    pub is_complete: bool,
}

/// Ranking order on months: higher score first, ties broken by calendar
/// month ascending.
pub open spec fn month_rank_le(a: MonthlyMetrics, b: MonthlyMetrics) -> bool {
    ||| a.health_score > b.health_score
    ||| (a.health_score == b.health_score && (a.year < b.year || (a.year == b.year && a.month
        <= b.month)))
}

/// Computes the health score of a month from its counts.
pub fn calculate_health_score(m: &MonthlyMetrics) -> (score: u64)
    requires
        m.expected_weekdays <= 31,
        m.missing_days <= 0x1000_0000_0000,
        m.invalid_files <= 0x1000_0000_0000,
        m.anomaly_count <= 0x1000_0000_0000,
        m.empty_files <= 0x1000_0000_0000,
    ensures
        score == score_scaled_of(
            penalty_of(
                m.missing_days as int,
                m.invalid_files as int,
                m.anomaly_count as int,
                m.empty_files as int,
            ),
            m.expected_weekdays as int,
        ),
{
    if m.expected_weekdays == 0 {
        return 0;
    }
    let mp: u64 = 10 * m.expected_weekdays as u64;
    let penalty: u64 = 10 * m.missing_days as u64 + 3 * m.invalid_files as u64 + 2
        * m.anomaly_count as u64 + m.empty_files as u64;
    if penalty >= mp {
        return 0;
    }
    proof {
        lemma_scale_divisible(m.expected_weekdays as int);
        let q = SCORE_SCALE as int / (mp as int);
        assert((mp as int) * q == SCORE_SCALE as int);
        assert(1 <= q <= SCORE_SCALE as int) by (nonlinear_arith)
            requires
                (mp as int) * q == SCORE_SCALE as int,
                1 <= mp <= 310,
        ;
        assert(((mp - penalty) as int) * 100 * q <= 100 * SCORE_SCALE) by (nonlinear_arith)
            requires
                0 < ((mp - penalty) as int) <= mp as int,
                0 <= q,
                (mp as int) * q == SCORE_SCALE as int,
        ;
    }
    let q: u64 = SCORE_SCALE / mp;
    (mp - penalty) * 100 * q
}

/// Business days in the inclusive range `[a, b]`.
pub open spec fn weekday_count(a: Date, b: Date) -> int
    decreases b.year - a.year, 12 - a.month, 31 - a.day,
{
    if !date_valid(a) || !date_valid(b) || !date_le(a, b) {
        0
    } else if a == b {
        if is_business_day(a) {
            1
        } else {
            0
        }
    } else {
        (if is_business_day(a) {
            1int
        } else {
            0int
        }) + weekday_count(next_date_of(a), b)
    }
}

pub open spec fn date_max(a: Date, b: Date) -> Date {
    if date_le(a, b) {
        b
    } else {
        a
    }
}

pub open spec fn date_min(a: Date, b: Date) -> Date {
    if date_le(a, b) {
        a
    } else {
        b
    }
}

pub open spec fn month_first(y: int, m: int) -> Date {
    Date { year: y as i32, month: m as u32, day: 1 }
}

pub open spec fn month_last(y: int, m: int) -> Date {
    Date { year: y as i32, month: m as u32, day: days_in_month_of(y, m) as u32 }
}

/// The expected weekdays of month `(y, m)`: business days in the month
/// clamped to the configured range and to today.
pub open spec fn expected_weekdays_of(y: int, m: int, rs: Date, re_: Date, today: Date) -> int {
    weekday_count(date_max(month_first(y, m), rs), date_min(date_min(month_last(y, m), re_), today))
}

/// Counts the expected weekdays of one month, clamped to the configured
/// date range and to today.
#[verifier::loop_isolation(false)]
pub fn count_expected_weekdays_in_month(
    year: i32,
    month: u32,
    range_start: Date,
    range_end: Date,
    today: Date,
) -> (n: usize)
    requires
        1 <= year <= 9999,
        1 <= month <= 12,
        date_valid(range_start),
        date_valid(range_end),
        date_valid(today),
    ensures
        n == expected_weekdays_of(year as int, month as int, range_start, range_end, today),
        n <= 31,
{
    let ms = Date { year, month, day: 1 };
    let me_ = Date { year, month, day: days_in_month(year, month) };
    let lo = if date_before_eq(&ms, &range_start) {
        range_start
    } else {
        ms
    };
    let hi0 = if date_before_eq(&me_, &range_end) {
        me_
    } else {
        range_end
    };
    let hi = if date_before_eq(&hi0, &today) {
        hi0
    } else {
        today
    };
    proof {
        assert(lo == date_max(month_first(year as int, month as int), range_start));
        assert(hi == date_min(
            date_min(month_last(year as int, month as int), range_end),
            today,
        ));
    }
    if !date_before_eq(&lo, &hi) {
        return 0;
    }
    proof {
        lemma_day_number_monotone(month_first(year as int, month as int), lo);
        lemma_day_number_monotone(hi, month_last(year as int, month as int));
        assert(day_number_of(month_last(year as int, month as int)) - day_number_of(
            month_first(year as int, month as int),
        ) <= 30);
    }
    let mut cnt: usize = 0;
    let mut curr = lo;
    while date_before(&curr, &hi)
        invariant
            date_valid(curr),
            date_le(curr, hi),
            weekday_count(lo, hi) == cnt + weekday_count(curr, hi),
            cnt <= day_number_of(curr) - day_number_of(lo),
        decreases day_number_of(hi) - day_number_of(curr),
    {
        proof {
            lemma_day_number_monotone(curr, hi);
            lemma_day_number_next(curr);
            lemma_next_day_tight(curr, hi);
        }
        let wd = weekday(&curr);
        if wd <= 5 {
            cnt += 1;
        }
        curr = next_day(&curr);
    }
    let wd = weekday(&curr);
    proof {
        assert(curr == hi);
        lemma_day_number_monotone(lo, curr);
    }
    if wd <= 5 {
        cnt += 1;
    }
    cnt
}

/// How many of the given dates fall in month `(y, m)`.
pub open spec fn missing_in_month(missing: Seq<Date>, y: int, m: int) -> int
    decreases missing.len(),
{
    if missing.len() == 0 {
        0
    } else {
        missing_in_month(missing.drop_last(), y, m) + (if missing.last().year == y
            && missing.last().month == m {
            1int
        } else {
            0int
        })
    }
}

/// How many anomalies name a dated folder of this line in month `(y, m)`.
pub open spec fn anomalies_in_month(anoms: Seq<Anomaly>, line: Seq<char>, y: int, m: int) -> int
    decreases anoms.len(),
{
    if anoms.len() == 0 {
        0
    } else {
        let d = extract_date_spec(anoms.last().name@, line);
        anomalies_in_month(anoms.drop_last(), line, y, m) + (if d is Some && d->0.year == y
            && d->0.month == m {
            1int
        } else {
            0int
        })
    }
}

/// How many records of dated folders of month `(y, m)` are invalid.
pub open spec fn invalid_in_month(files: Seq<FileEntry>, line: Seq<char>, y: int, m: int) -> int
    decreases files.len(),
{
    if files.len() == 0 {
        0
    } else {
        let d = extract_date_spec(files.last().parent_dir@, line);
        invalid_in_month(files.drop_last(), line, y, m) + (if d is Some && d->0.year == y
            && d->0.month == m && !files.last().is_valid {
            1int
        } else {
            0int
        })
    }
}

/// A file name is always empty when it occurs and every one of its
/// records lies below the threshold.
pub open spec fn always_empty_name(files: Seq<FileEntry>, name: Seq<char>, thr: u64) -> bool {
    group_sizes(files, name).len() > 0 && count_below(group_sizes(files, name), thr) == group_sizes(
        files,
        name,
    ).len()
}

/// How many records of month `(y, m)` are below the threshold, not
/// counting file names that are always empty across `all_files`.
pub open spec fn empty_in_month(
    files: Seq<FileEntry>,
    line: Seq<char>,
    y: int,
    m: int,
    thr: u64,
    all_files: Seq<FileEntry>,
) -> int
    decreases files.len(),
{
    if files.len() == 0 {
        0
    } else {
        let d = extract_date_spec(files.last().parent_dir@, line);
        empty_in_month(files.drop_last(), line, y, m, thr, all_files) + (if d is Some && d->0.year
            == y && d->0.month == m && files.last().size < thr && !always_empty_name(
            all_files,
            files.last().name@,
            thr,
        ) {
            1int
        } else {
            0int
        })
    }
}

/// The distinct dated-folder dates of month `(y, m)`.
pub open spec fn month_dates(files: Seq<FileEntry>, line: Seq<char>, y: int, m: int) -> Set<Date>
    decreases files.len(),
{
    if files.len() == 0 {
        Set::empty()
    } else {
        let rest = month_dates(files.drop_last(), line, y, m);
        let d = extract_date_spec(files.last().parent_dir@, line);
        if d is Some && d->0.year == y && d->0.month == m {
            rest.insert(d->0)
        } else {
            rest
        }
    }
}

/// The months of the dated folders of a record list.
pub open spec fn file_months(files: Seq<FileEntry>, line: Seq<char>) -> Set<(int, int)>
    decreases files.len(),
{
    if files.len() == 0 {
        Set::empty()
    } else {
        let rest = file_months(files.drop_last(), line);
        let d = extract_date_spec(files.last().parent_dir@, line);
        if d is Some {
            rest.insert((d->0.year as int, d->0.month as int))
        } else {
            rest
        }
    }
}

/// The months of a date list.
pub open spec fn months_of_dates(ds: Seq<Date>) -> Set<(int, int)>
    decreases ds.len(),
{
    if ds.len() == 0 {
        Set::empty()
    } else {
        months_of_dates(ds.drop_last()).insert(
            (ds.last().year as int, ds.last().month as int),
        )
    }
}

proof fn lemma_counts_le_len(
    files: Seq<FileEntry>,
    missing: Seq<Date>,
    anoms: Seq<Anomaly>,
    line: Seq<char>,
    y: int,
    m: int,
    thr: u64,
    all_files: Seq<FileEntry>,
)
    ensures
        0 <= missing_in_month(missing, y, m) <= missing.len(),
        0 <= anomalies_in_month(anoms, line, y, m) <= anoms.len(),
        0 <= invalid_in_month(files, line, y, m) <= files.len(),
        0 <= empty_in_month(files, line, y, m, thr, all_files) <= files.len(),
    decreases files.len() + missing.len() + anoms.len(),
{
    if files.len() > 0 || missing.len() > 0 || anoms.len() > 0 {
        lemma_counts_le_len(
            if files.len() > 0 {
                files.drop_last()
            } else {
                files
            },
            if missing.len() > 0 {
                missing.drop_last()
            } else {
                missing
            },
            if anoms.len() > 0 {
                anoms.drop_last()
            } else {
                anoms
            },
            line,
            y,
            m,
            thr,
            all_files,
        );
    }
}

/// The spec sequence of missing weekdays behind an optional gap report.
pub open spec fn gap_missing_of(g: Option<&GapReport>) -> Seq<Date> {
    if g is Some {
        g->0.missing_weekdays@
    } else {
        Seq::empty()
    }
}

/// The spec sequence of anomalies behind an optional anomaly report.
pub open spec fn anomalies_of_report(a: Option<&AnomalyReport>) -> Seq<Anomaly> {
    if a is Some {
        a->0.anomalies@
    } else {
        Seq::empty()
    }
}

fn count_missing_in_month(gap: Option<&GapReport>, y: i32, m: u32) -> (n: usize)
    ensures
        n == missing_in_month(gap_missing_of(gap), y as int, m as int),
        n <= gap_missing_of(gap).len(),
{
    let ds = match gap {
        Some(g) => &g.missing_weekdays,
        None => {
            proof {
                assert(gap_missing_of(gap) =~= Seq::<Date>::empty());
            }
            return 0;
        },
    };
    let mut n: usize = 0;
    let mut k: usize = 0;
    proof {
        assert(ds@.take(0) =~= Seq::<Date>::empty());
    }
    while k < ds.len()
        invariant
            k <= ds@.len(),
            n == missing_in_month(ds@.take(k as int), y as int, m as int),
            n <= k,
            ds@ == gap_missing_of(gap),
        decreases ds@.len() - k,
    {
        proof {
            assert(ds@.take(k as int + 1).drop_last() =~= ds@.take(k as int));
            assert(ds@.take(k as int + 1).last() == ds@[k as int]);
        }
        if ds[k].year == y && ds[k].month == m {
            n += 1;
        }
        k += 1;
    }
    proof {
        assert(ds@.take(ds@.len() as int) =~= ds@);
    }
    n
}

fn count_anomalies_in_month(anoms: Option<&AnomalyReport>, line_id: &str, y: i32, m: u32) -> (n:
    usize)
    ensures
        n == anomalies_in_month(anomalies_of_report(anoms), line_id@, y as int, m as int),
        n <= anomalies_of_report(anoms).len(),
{
    let list = match anoms {
        Some(a) => &a.anomalies,
        None => {
            proof {
                assert(anomalies_of_report(anoms) =~= Seq::<Anomaly>::empty());
            }
            return 0;
        },
    };
    let mut n: usize = 0;
    let mut k: usize = 0;
    proof {
        assert(list@.take(0) =~= Seq::<Anomaly>::empty());
    }
    while k < list.len()
        invariant
            k <= list@.len(),
            n == anomalies_in_month(list@.take(k as int), line_id@, y as int, m as int),
            n <= k,
            list@ == anomalies_of_report(anoms),
        decreases list@.len() - k,
    {
        proof {
            assert(list@.take(k as int + 1).drop_last() =~= list@.take(k as int));
            assert(list@.take(k as int + 1).last() == list@[k as int]);
        }
        let d = extract_date_from_dir(list[k].name.as_str(), line_id);
        if let Some(dd) = d {
            if dd.year == y && dd.month == m {
                n += 1;
            }
        }
        k += 1;
    }
    proof {
        assert(list@.take(list@.len() as int) =~= list@);
    }
    n
}

fn count_invalid_in_month(files: &Vec<FileEntry>, line_id: &str, y: i32, m: u32) -> (n: usize)
    ensures
        n == invalid_in_month(files@, line_id@, y as int, m as int),
        n <= files@.len(),
{
    let mut n: usize = 0;
    let mut k: usize = 0;
    proof {
        assert(files@.take(0) =~= Seq::<FileEntry>::empty());
    }
    while k < files.len()
        invariant
            k <= files@.len(),
            n == invalid_in_month(files@.take(k as int), line_id@, y as int, m as int),
            n <= k,
        decreases files@.len() - k,
    {
        proof {
            assert(files@.take(k as int + 1).drop_last() =~= files@.take(k as int));
            assert(files@.take(k as int + 1).last() == files@[k as int]);
        }
        let d = extract_date_from_dir(files[k].parent_dir.as_str(), line_id);
        if let Some(dd) = d {
            if dd.year == y && dd.month == m && !files[k].is_valid {
                n += 1;
            }
        }
        k += 1;
    }
    proof {
        assert(files@.take(files@.len() as int) =~= files@);
    }
    n
}

/// Some name in the list views as `n`.
pub open spec fn name_in_list(l: Seq<String>, n: Seq<char>) -> bool {
    exists|i: int| 0 <= i < l.len() && (#[trigger] l[i])@ == n
}

proof fn lemma_always_empty_occurs(files: Seq<FileEntry>, name: Seq<char>)
    requires
        group_sizes(files, name).len() > 0,
    ensures
        exists|i: int| 0 <= i < files.len() && (#[trigger] files[i]).name@ == name,
    decreases files.len(),
{
    if files.len() > 0 {
        if files.last().name@ == name {
            assert(files[files.len() - 1].name@ == name);
        } else {
            lemma_always_empty_occurs(files.drop_last(), name);
            let i = choose|i: int|
                0 <= i < files.drop_last().len() && (#[trigger] files.drop_last()[i]).name@ == name;
            assert(files[i].name@ == name);
        }
    }
}

fn group_counts(files: &Vec<FileEntry>, name: &String, thr: u64) -> (r: (usize, usize))
    ensures
        r.0 == group_sizes(files@, name@).len(),
        r.1 == count_below(group_sizes(files@, name@), thr),
{
    let mut total: usize = 0;
    let mut empty: usize = 0;
    let mut k: usize = 0;
    proof {
        assert(files@.take(0) =~= Seq::<FileEntry>::empty());
    }
    while k < files.len()
        invariant
            k <= files@.len(),
            total == group_sizes(files@.take(k as int), name@).len(),
            empty == count_below(group_sizes(files@.take(k as int), name@), thr),
            total <= k,
            empty <= total,
        decreases files@.len() - k,
    {
        proof {
            assert(files@.take(k as int + 1).drop_last() =~= files@.take(k as int));
            assert(files@.take(k as int + 1).last() == files@[k as int]);
        }
        if files[k].name == *name {
            proof {
                let gs = group_sizes(files@.take(k as int + 1), name@);
                assert(gs == group_sizes(files@.take(k as int), name@).push(
                    files@[k as int].size,
                ));
                assert(gs.drop_last() =~= group_sizes(files@.take(k as int), name@));
                assert(gs.last() == files@[k as int].size);
            }
            total += 1;
            if files[k].size < thr {
                empty += 1;
            }
        }
        k += 1;
    }
    proof {
        assert(files@.take(files@.len() as int) =~= files@);
        lemma_count_below_le(group_sizes(files@, name@), thr);
    }
    (total, empty)
}

proof fn lemma_count_below_le(sizes: Seq<u64>, thr: u64)
    ensures
        0 <= count_below(sizes, thr) <= sizes.len(),
    decreases sizes.len(),
{
    if sizes.len() > 0 {
        lemma_count_below_le(sizes.drop_last(), thr);
    }
}

fn list_contains_name(l: &Vec<String>, s: &String) -> (r: bool)
    ensures
        r == name_in_list(l@, s@),
{
    let mut i: usize = 0;
    while i < l.len()
        invariant
            i <= l@.len(),
            forall|j: int| 0 <= j < i ==> (#[trigger] l@[j])@ != s@,
        decreases l@.len() - i,
    {
        if l[i] == *s {
            return true;
        }
        i += 1;
    }
    false
}

/// The file names that are empty in every one of their records: such a
/// file is structurally empty by design and never counts as a transfer
/// defect.
#[verifier::loop_isolation(false)]
pub fn find_always_empty_files(files: &Vec<FileEntry>, tiny_threshold: u64) -> (r: Vec<String>)
    ensures
        forall|n: Seq<char>| #[trigger]
            name_in_list(r@, n) == always_empty_name(files@, n, tiny_threshold),
{
    let mut r: Vec<String> = Vec::new();
    let mut k: usize = 0;
    while k < files.len()
        invariant
            k <= files@.len(),
            forall|n: Seq<char>| #[trigger]
                name_in_list(r@, n) == ((exists|i: int|
                    0 <= i < k && (#[trigger] files@[i]).name@ == n) && always_empty_name(
                    files@,
                    n,
                    tiny_threshold,
                )),
        decreases files@.len() - k,
    {
        let ghost old_r = r@;
        let present = list_contains_name(&r, &files[k].name);
        if !present {
            let (total, empty) = group_counts(files, &files[k].name, tiny_threshold);
            if total > 0 && total == empty {
                r.push(files[k].name.clone());
            }
        }
        proof {
            let nk = files@[k as int].name@;
            assert(files@[k as int].name@ == nk);
            assert forall|n: Seq<char>| #[trigger] name_in_list(r@, n) implies ((exists|i: int|
                0 <= i < k + 1 && (#[trigger] files@[i]).name@ == n) && always_empty_name(
                files@,
                n,
                tiny_threshold,
            )) by {
                let j = choose|j: int| 0 <= j < r@.len() && (#[trigger] r@[j])@ == n;
                if j < old_r.len() {
                    assert(old_r[j]@ == n);
                    assert(name_in_list(old_r, n));
                } else {
                    assert(n == nk);
                }
            }
            assert forall|n: Seq<char>| ((exists|i: int|
                0 <= i < k + 1 && (#[trigger] files@[i]).name@ == n) && always_empty_name(
                files@,
                n,
                tiny_threshold,
            )) implies #[trigger] name_in_list(r@, n) by {
                let i = choose|i: int| 0 <= i < k + 1 && (#[trigger] files@[i]).name@ == n;
                if i < k {
                    assert(name_in_list(old_r, n));
                    let j = choose|j: int| 0 <= j < old_r.len() && (#[trigger] old_r[j])@ == n;
                    assert(r@[j]@ == n);
                } else {
                    assert(n == nk);
                    if name_in_list(old_r, n) {
                        let j = choose|j: int|
                            0 <= j < old_r.len() && (#[trigger] old_r[j])@ == n;
                        assert(r@[j]@ == n);
                    } else {
                        assert(!present);
                        assert(r@[r@.len() - 1]@ == n);
                    }
                }
            }
        }
        k += 1;
    }
    proof {
        assert forall|n: Seq<char>| #[trigger] name_in_list(r@, n) == always_empty_name(
            files@,
            n,
            tiny_threshold,
        ) by {
            if always_empty_name(files@, n, tiny_threshold) {
                lemma_always_empty_occurs(files@, n);
            }
        }
    }
    r
}

fn count_empty_in_month(
    files: &Vec<FileEntry>,
    line_id: &str,
    y: i32,
    m: u32,
    thr: u64,
    always_empty: &Vec<String>,
) -> (n: usize)
    requires
        forall|n2: Seq<char>| #[trigger]
            name_in_list(always_empty@, n2) == always_empty_name(files@, n2, thr),
    ensures
        n == empty_in_month(files@, line_id@, y as int, m as int, thr, files@),
        n <= files@.len(),
{
    let mut n: usize = 0;
    let mut k: usize = 0;
    proof {
        assert(files@.take(0) =~= Seq::<FileEntry>::empty());
    }
    while k < files.len()
        invariant
            k <= files@.len(),
            n == empty_in_month(files@.take(k as int), line_id@, y as int, m as int, thr, files@),
            n <= k,
            forall|n2: Seq<char>| #[trigger]
                name_in_list(always_empty@, n2) == always_empty_name(files@, n2, thr),
        decreases files@.len() - k,
    {
        proof {
            assert(files@.take(k as int + 1).drop_last() =~= files@.take(k as int));
            assert(files@.take(k as int + 1).last() == files@[k as int]);
        }
        let d = extract_date_from_dir(files[k].parent_dir.as_str(), line_id);
        if let Some(dd) = d {
            if dd.year == y && dd.month == m && files[k].size < thr {
                let ae = list_contains_name(always_empty, &files[k].name);
                if !ae {
                    n += 1;
                }
            }
        }
        k += 1;
    }
    proof {
        assert(files@.take(files@.len() as int) =~= files@);
    }
    n
}

fn count_month_dates(files: &Vec<FileEntry>, line_id: &str, y: i32, m: u32) -> (n: usize)
    ensures
        n == month_dates(files@, line_id@, y as int, m as int).len(),
{
    broadcast use vstd::set_lib::group_set_lib_default, vstd::set::group_set_axioms;

    let mut seen: Vec<Date> = Vec::new();
    let mut k: usize = 0;
    proof {
        assert(files@.take(0) =~= Seq::<FileEntry>::empty());
        assert(month_dates(files@.take(0), line_id@, y as int, m as int) =~= Set::<Date>::empty());
    }
    while k < files.len()
        invariant
            k <= files@.len(),
            forall|i: int, j: int| 0 <= i < j < seen@.len() ==> seen@[i] != seen@[j],
            forall|d: Date|
                seen@.contains(d) == month_dates(
                    files@.take(k as int),
                    line_id@,
                    y as int,
                    m as int,
                ).contains(d),
            seen@.len() == month_dates(files@.take(k as int), line_id@, y as int, m as int).len(),
            month_dates(files@.take(k as int), line_id@, y as int, m as int).finite(),
        decreases files@.len() - k,
    {
        proof {
            assert(files@.take(k as int + 1).drop_last() =~= files@.take(k as int));
            assert(files@.take(k as int + 1).last() == files@[k as int]);
        }
        let ghost prev_set = month_dates(files@.take(k as int), line_id@, y as int, m as int);
        let ghost new_set = month_dates(files@.take(k as int + 1), line_id@, y as int, m as int);
        let d = extract_date_from_dir(files[k].parent_dir.as_str(), line_id);
        let ghost old_seen = seen@;
        if let Some(dd) = d {
            if dd.year == y && dd.month == m {
                let already = crate::gaps::vec_contains_date(&seen, &dd);
                if !already {
                    seen.push(dd);
                    proof {
                        assert(new_set =~= prev_set.insert(dd));
                        assert(!prev_set.contains(dd));
                        assert(new_set.len() == prev_set.len() + 1);
                        assert forall|d2: Date| seen@.contains(d2) == new_set.contains(d2) by {
                            if seen@.contains(d2) {
                                let j = choose|j: int|
                                    0 <= j < seen@.len() && seen@[j] == d2;
                                if j < old_seen.len() {
                                    assert(old_seen[j] == d2);
                                }
                            }
                            if old_seen.contains(d2) {
                                let j = choose|j: int|
                                    0 <= j < old_seen.len() && old_seen[j] == d2;
                                assert(seen@[j] == d2);
                            }
                            if d2 == dd {
                                assert(seen@[seen@.len() - 1] == d2);
                            }
                        }
                    }
                } else {
                    proof {
                        assert(prev_set.contains(dd));
                        assert(new_set =~= prev_set.insert(dd));
                        assert(new_set =~= prev_set);
                    }
                }
            } else {
                proof {
                    assert(new_set =~= prev_set);
                }
            }
        } else {
            proof {
                assert(new_set =~= prev_set);
            }
        }
        k += 1;
    }
    proof {
        assert(files@.take(files@.len() as int) =~= files@);
    }
    seen.len()
}

/// What a correct monthly rollup states about the inputs, for the
/// month `(m.year, m.month)`.
pub open spec fn metrics_ok(
    files: Seq<FileEntry>,
    gm: Seq<Date>,
    ga: Seq<Anomaly>,
    line: Seq<char>,
    rs: Date,
    re_: Date,
    today: Date,
    thr: u64,
    m: MonthlyMetrics,
) -> bool {
    let y = m.year as int;
    let mo = m.month as int;
    &&& 1 <= y <= 9999
    &&& 1 <= mo <= 12
    &&& m.missing_days == missing_in_month(gm, y, mo)
    &&& m.anomaly_count == anomalies_in_month(ga, line, y, mo)
    &&& m.invalid_files == invalid_in_month(files, line, y, mo)
    &&& m.empty_files == empty_in_month(files, line, y, mo, thr, files)
    &&& m.expected_weekdays == expected_weekdays_of(y, mo, rs, re_, today)
    &&& m.expected_weekdays > 0
    &&& m.actual_archives == month_dates(files, line, y, mo).len()
    &&& m.health_score == score_scaled_of(
        penalty_of(
            m.missing_days as int,
            m.invalid_files as int,
            m.anomaly_count as int,
            m.empty_files as int,
        ),
        m.expected_weekdays as int,
    )
    &&& m.is_complete == date_lt(month_last(y, mo), today)
}

/// Some month of the list is `(y, mo)`.
pub open spec fn month_in_list(ms: Seq<MonthlyMetrics>, y: int, mo: int) -> bool {
    exists|i: int| 0 <= i < ms.len() && (#[trigger] ms[i]).year == y && ms[i].month == mo
}

/// Some key of the list is `(y, mo)`.
pub open spec fn key_in_list(ks: Seq<(i32, u32)>, y: int, mo: int) -> bool {
    exists|i: int| 0 <= i < ks.len() && (#[trigger] ks[i]).0 == y && ks[i].1 == mo
}

/// The sum of the scaled health scores.
pub open spec fn sum_scores(ms: Seq<MonthlyMetrics>) -> int
    decreases ms.len(),
{
    if ms.len() == 0 {
        0
    } else {
        sum_scores(ms.drop_last()) + ms.last().health_score
    }
}

/// Some month of the list is complete.
pub open spec fn has_complete(ms: Seq<MonthlyMetrics>) -> bool {
    exists|i: int| 0 <= i < ms.len() && (#[trigger] ms[i]).is_complete
}

fn month_rank_le_exec(a: &MonthlyMetrics, b: &MonthlyMetrics) -> (r: bool)
    ensures
        r == month_rank_le(*a, *b),
{
    a.health_score > b.health_score || (a.health_score == b.health_score && (a.year < b.year || (
    a.year == b.year && a.month <= b.month)))
}

fn key_list_contains(ks: &Vec<(i32, u32)>, y: i32, m: u32) -> (r: bool)
    ensures
        r == key_in_list(ks@, y as int, m as int),
{
    let mut i: usize = 0;
    while i < ks.len()
        invariant
            i <= ks@.len(),
            forall|j: int| 0 <= j < i ==> !((#[trigger] ks@[j]).0 == y && ks@[j].1 == m),
        decreases ks@.len() - i,
    {
        if ks[i].0 == y && ks[i].1 == m {
            return true;
        }
        i += 1;
    }
    false
}

/// Monthly rankings of one line: every month with data, sorted best
/// first, the best and worst month (preferring complete months), and
/// the mean score over all months as an exact ratio.
#[derive(Debug)]
pub struct MonthlyRankingReport {
    pub months: Vec<MonthlyMetrics>,
    pub best_month: Option<MonthlyMetrics>,
    pub worst_month: Option<MonthlyMetrics>,
    pub average_score: Ratio,
    pub line_id: String,
}


/// The distinct months named by the dated folders of a record list.
#[verifier::loop_isolation(false)]
#[verifier::rlimit(60)]
fn collect_file_month_keys(files: &Vec<FileEntry>, line_id: &str) -> (keys: Vec<(i32, u32)>)
    ensures
        keys@.len() <= files@.len(),
        forall|i: int|
            0 <= i < keys@.len() ==> 1 <= (#[trigger] keys@[i]).0 <= 9999 && 1 <= keys@[i].1 <= 12,
        forall|i: int, j: int|
            0 <= i < j < keys@.len() ==> #[trigger] keys@[i] != #[trigger] keys@[j],
        forall|y: int, mo: int| #[trigger]
            key_in_list(keys@, y, mo) == file_months(files@, line_id@).contains((y, mo)),
{
    let mut keys: Vec<(i32, u32)> = Vec::new();
    let mut k: usize = 0;
    proof {
        assert(files@.take(0) =~= Seq::<FileEntry>::empty());
        assert(file_months(files@.take(0), line_id@) =~= Set::<(int, int)>::empty());
    }
    while k < files.len()
        invariant
            k <= files@.len(),
            keys@.len() <= k,
            forall|i: int|
                0 <= i < keys@.len() ==> 1 <= (#[trigger] keys@[i]).0 <= 9999 && 1 <= keys@[i].1
                    <= 12,
            forall|i: int, j: int|
                0 <= i < j < keys@.len() ==> #[trigger] keys@[i] != #[trigger] keys@[j],
            forall|y: int, mo: int| #[trigger]
                key_in_list(keys@, y, mo) == file_months(
                    files@.take(k as int),
                    line_id@,
                ).contains((y, mo)),
        decreases files@.len() - k,
    {
        proof {
            assert(files@.take(k as int + 1).drop_last() =~= files@.take(k as int));
            assert(files@.take(k as int + 1).last() == files@[k as int]);
        }
        let ghost prev_set = file_months(files@.take(k as int), line_id@);
        let ghost new_set = file_months(files@.take(k as int + 1), line_id@);
        let ghost old_keys = keys@;
        let d = extract_date_from_dir(files[k].parent_dir.as_str(), line_id);
        if let Some(dd) = d {
            let present = key_list_contains(&keys, dd.year, dd.month);
            if !present {
                keys.push((dd.year, dd.month));
                proof {
                    assert(forall|j: int|
                        0 <= j < old_keys.len() ==> !((#[trigger] old_keys[j]).0 == dd.year
                            && old_keys[j].1 == dd.month));
                    assert(forall|j: int| 0 <= j < old_keys.len() ==> keys@[j] == old_keys[j]);
                }
            }
            proof {
                assert(new_set =~= prev_set.insert((dd.year as int, dd.month as int)));
                assert forall|y: int, mo: int| #[trigger]
                    key_in_list(keys@, y, mo) == new_set.contains((y, mo)) by {
                    if key_in_list(keys@, y, mo) {
                        let i = choose|i: int|
                            0 <= i < keys@.len() && (#[trigger] keys@[i]).0 == y && keys@[i].1
                                == mo;
                        if i < old_keys.len() {
                            assert(old_keys[i].0 == y && old_keys[i].1 == mo);
                            assert(key_in_list(old_keys, y, mo));
                        } else {
                            assert(y == dd.year as int && mo == dd.month as int);
                        }
                    }
                    if new_set.contains((y, mo)) {
                        if prev_set.contains((y, mo)) {
                            assert(key_in_list(old_keys, y, mo));
                            let i = choose|i: int|
                                0 <= i < old_keys.len() && (#[trigger] old_keys[i]).0 == y
                                    && old_keys[i].1 == mo;
                            assert(keys@[i].0 == y && keys@[i].1 == mo);
                        } else {
                            assert(y == dd.year as int && mo == dd.month as int);
                            if present {
                                let i = choose|i: int|
                                    0 <= i < old_keys.len() && (#[trigger] old_keys[i]).0 == y
                                        && old_keys[i].1 == mo;
                                assert(keys@[i].0 == y && keys@[i].1 == mo);
                            } else {
                                assert(keys@[keys@.len() - 1].0 == y && keys@[keys@.len() - 1].1
                                    == mo);
                            }
                        }
                    }
                }
            }
        } else {
            proof {
                assert(new_set =~= prev_set);
            }
        }
        k += 1;
    }
    proof {
        assert(files@.take(files@.len() as int) =~= files@);
    }
    keys
}

/// Extends the month keys with the months of the missing weekdays of a
/// gap report.
#[verifier::loop_isolation(false)]
#[verifier::rlimit(60)]
fn add_missing_month_keys(
    keys: &mut Vec<(i32, u32)>,
    g: &GapReport,
    files: &Vec<FileEntry>,
    line_id: &str,
)
    requires
        forall|i: int|
            0 <= i < g.missing_weekdays@.len() ==> date_valid(#[trigger] g.missing_weekdays@[i]),
        forall|i: int|
            0 <= i < old(keys)@.len() ==> 1 <= (#[trigger] old(keys)@[i]).0 <= 9999 && 1 <= old(
                keys,
            )@[i].1 <= 12,
        forall|i: int, j: int|
            0 <= i < j < old(keys)@.len() ==> #[trigger] old(keys)@[i] != #[trigger] old(keys)@[j],
        forall|y: int, mo: int| #[trigger]
            key_in_list(old(keys)@, y, mo) == file_months(files@, line_id@).contains((y, mo)),
    ensures
        final(keys)@.len() <= old(keys)@.len() + g.missing_weekdays@.len(),
        forall|i: int|
            0 <= i < final(keys)@.len() ==> 1 <= (#[trigger] final(keys)@[i]).0 <= 9999 && 1
                <= final(keys)@[i].1 <= 12,
        forall|i: int, j: int|
            0 <= i < j < final(keys)@.len() ==> #[trigger] final(keys)@[i]
                != #[trigger] final(keys)@[j],
        forall|y: int, mo: int| #[trigger]
            key_in_list(final(keys)@, y, mo) == (file_months(files@, line_id@).contains((y, mo))
                || months_of_dates(g.missing_weekdays@).contains((y, mo))),
{
    let ghost gm = g.missing_weekdays@;
    let ghost base_len = keys@.len();
    let mut k2: usize = 0;
    proof {
        assert(gm.take(0) =~= Seq::<Date>::empty());
        assert(months_of_dates(gm.take(0)) =~= Set::<(int, int)>::empty());
    }
    while k2 < g.missing_weekdays.len()
        invariant
            k2 <= gm.len(),
            gm == g.missing_weekdays@,
            keys@.len() <= base_len + k2,
            forall|i: int|
                0 <= i < keys@.len() ==> 1 <= (#[trigger] keys@[i]).0 <= 9999 && 1 <= keys@[i].1
                    <= 12,
            forall|i: int, j: int|
                0 <= i < j < keys@.len() ==> #[trigger] keys@[i] != #[trigger] keys@[j],
            forall|y: int, mo: int| #[trigger]
                key_in_list(keys@, y, mo) == (file_months(files@, line_id@).contains((y, mo))
                    || months_of_dates(gm.take(k2 as int)).contains((y, mo))),
        decreases gm.len() - k2,
    {
        proof {
            assert(gm.take(k2 as int + 1).drop_last() =~= gm.take(k2 as int));
            assert(gm.take(k2 as int + 1).last() == gm[k2 as int]);
        }
        let ghost old_keys = keys@;
        let dd = g.missing_weekdays[k2];
        proof {
            assert(dd == gm[k2 as int]);
            assert(date_valid(dd));
        }
        let present = key_list_contains(keys, dd.year, dd.month);
        if !present {
            keys.push((dd.year, dd.month));
            proof {
                assert(forall|j: int|
                    0 <= j < old_keys.len() ==> !((#[trigger] old_keys[j]).0 == dd.year
                        && old_keys[j].1 == dd.month));
                assert(forall|j: int| 0 <= j < old_keys.len() ==> keys@[j] == old_keys[j]);
            }
        }
        proof {
            let yk = gm[k2 as int].year as int;
            let mk = gm[k2 as int].month as int;
            assert(months_of_dates(gm.take(k2 as int + 1)) =~= months_of_dates(
                gm.take(k2 as int),
            ).insert((yk, mk)));
            assert forall|y: int, mo: int| #[trigger]
                key_in_list(keys@, y, mo) == (file_months(files@, line_id@).contains((y, mo))
                    || months_of_dates(gm.take(k2 as int + 1)).contains((y, mo))) by {
                if key_in_list(keys@, y, mo) {
                    let i = choose|i: int|
                        0 <= i < keys@.len() && (#[trigger] keys@[i]).0 == y && keys@[i].1 == mo;
                    if i < old_keys.len() {
                        assert(old_keys[i].0 == y && old_keys[i].1 == mo);
                        assert(key_in_list(old_keys, y, mo));
                    } else {
                        assert(y == yk && mo == mk);
                    }
                }
                if key_in_list(old_keys, y, mo) {
                    let i = choose|i: int|
                        0 <= i < old_keys.len() && (#[trigger] old_keys[i]).0 == y && old_keys[i].1
                            == mo;
                    assert(keys@[i].0 == y && keys@[i].1 == mo);
                }
                if y == yk && mo == mk {
                    if key_in_list(old_keys, y, mo) {
                    } else {
                        assert(keys@[keys@.len() - 1].0 == y && keys@[keys@.len() - 1].1 == mo);
                    }
                }
            }
        }
        k2 += 1;
    }
    proof {
        assert(gm.take(gm.len() as int) =~= gm);
    }
}

/// Rolls the records, the gap report and the anomaly report of one line
/// up into one scored entry per calendar month that has expected
/// weekdays inside the configured range and today, ranked best first.
/// Best and worst month prefer complete months when any exist; the
/// average is the unweighted mean over all months.
#[verifier::loop_isolation(false)]
#[verifier::rlimit(100)]
pub fn calculate_monthly_rankings(
    files: &Vec<FileEntry>,
    gap_report: Option<&GapReport>,
    anomaly_report: Option<&AnomalyReport>,
    line_id: &str,
    start_date: Date,
    end_date: Date,
    today: Date,
    tiny_threshold: u64,
) -> (r: MonthlyRankingReport)
    requires
        date_valid(start_date),
        date_valid(end_date),
        date_valid(today),
        files@.len() <= 0x1000_0000_0000,
        gap_report is Some ==> gap_report->0.missing_weekdays@.len() <= 0x1000_0000_0000,
        anomaly_report is Some ==> anomaly_report->0.anomalies@.len() <= 0x1000_0000_0000,
        gap_report is Some ==> forall|i: int|
            0 <= i < gap_report->0.missing_weekdays@.len() ==> date_valid(
                #[trigger] gap_report->0.missing_weekdays@[i],
            ),
    ensures
        ({
            let gm = gap_missing_of(gap_report);
            let ga = anomalies_of_report(anomaly_report);
            let ms = r.months@;
            &&& forall|i: int|
                0 <= i < ms.len() ==> metrics_ok(
                    files@,
                    gm,
                    ga,
                    line_id@,
                    start_date,
                    end_date,
                    today,
                    tiny_threshold,
                    #[trigger] ms[i],
                )
            &&& forall|i: int, j: int|
                0 <= i < j < ms.len() ==> month_rank_le(#[trigger] ms[i], #[trigger] ms[j])
            &&& forall|i: int, j: int|
                0 <= i < j < ms.len() ==> !((#[trigger] ms[i]).year == (#[trigger] ms[j]).year
                    && ms[i].month == ms[j].month)
            &&& forall|y: int, mo: int| #[trigger]
                month_in_list(ms, y, mo) == ((file_months(files@, line_id@).contains((y, mo))
                    || months_of_dates(gm).contains((y, mo))) && expected_weekdays_of(
                    y,
                    mo,
                    start_date,
                    end_date,
                    today,
                ) > 0)
            &&& (ms.len() == 0 <==> r.best_month is None)
            &&& (ms.len() == 0 <==> r.worst_month is None)
            &&& (ms.len() > 0 && has_complete(ms) ==> {
                &&& ms.contains(r.best_month->0) && r.best_month->0.is_complete
                &&& ms.contains(r.worst_month->0) && r.worst_month->0.is_complete
                &&& forall|i: int|
                    0 <= i < ms.len() && (#[trigger] ms[i]).is_complete ==> month_rank_le(
                        r.best_month->0,
                        ms[i],
                    ) && month_rank_le(ms[i], r.worst_month->0)
            })
            &&& (ms.len() > 0 && !has_complete(ms) ==> r.best_month == Some(ms[0])
                && r.worst_month == Some(ms[ms.len() - 1]))
            &&& r.average_score == (if ms.len() == 0 {
                Ratio { num: 0, den: 1 }
            } else {
                Ratio {
                    num: sum_scores(ms) as u128,
                    den: (ms.len() * SCORE_SCALE as int) as u128,
                }
            })
            &&& r.line_id@ == line_id@
        }),
{
    let ghost gm = gap_missing_of(gap_report);
    let always_empty = find_always_empty_files(files, tiny_threshold);
    let mut keys = collect_file_month_keys(files, line_id);
    match gap_report {
        Some(g) => {
            add_missing_month_keys(&mut keys, g, files, line_id);
        },
        None => {
            proof {
                assert(gm =~= Seq::<Date>::empty());
                assert(months_of_dates(gm) =~= Set::<(int, int)>::empty());
            }
        },
    }
    let report = build_ranking_from_keys(
        files,
        gap_report,
        anomaly_report,
        line_id,
        start_date,
        end_date,
        today,
        tiny_threshold,
        &always_empty,
        &keys,
    );
    report
}


/// Inserts a month into a ranked list, keeping it sorted; the month's
/// calendar key must be new.
#[verifier::loop_isolation(false)]
fn insert_month_sorted(months: &mut Vec<MonthlyMetrics>, mm: MonthlyMetrics)
    requires
        forall|i: int, j: int|
            0 <= i < j < old(months)@.len() ==> month_rank_le(
                #[trigger] old(months)@[i],
                #[trigger] old(months)@[j],
            ),
        forall|i: int, j: int|
            0 <= i < j < old(months)@.len() ==> !((#[trigger] old(months)@[i]).year
                == (#[trigger] old(months)@[j]).year && old(months)@[i].month
                == old(months)@[j].month),
        !month_in_list(old(months)@, mm.year as int, mm.month as int),
    ensures
        final(months)@.len() == old(months)@.len() + 1,
        forall|i: int|
            0 <= i < final(months)@.len() ==> #[trigger] final(months)@[i] == mm
                || old(months)@.contains(final(months)@[i]),
        forall|i: int, j: int|
            0 <= i < j < final(months)@.len() ==> month_rank_le(
                #[trigger] final(months)@[i],
                #[trigger] final(months)@[j],
            ),
        forall|i: int, j: int|
            0 <= i < j < final(months)@.len() ==> !((#[trigger] final(months)@[i]).year
                == (#[trigger] final(months)@[j]).year && final(months)@[i].month
                == final(months)@[j].month),
        forall|y2: int, mo2: int| #[trigger]
            month_in_list(final(months)@, y2, mo2) == (month_in_list(old(months)@, y2, mo2) || (y2
                == mm.year as int && mo2 == mm.month as int)),
{
    let ghost old_months = months@;
    let mut i: usize = 0;
    while i < months.len() && month_rank_le_exec(&months[i], &mm)
        invariant
            i <= months@.len(),
            months@ == old_months,
            forall|j: int| 0 <= j < i ==> month_rank_le(#[trigger] months@[j], mm),
        decreases months@.len() - i,
    {
        i += 1;
    }
    months.insert(i, mm);
    proof {
        old_months.insert_ensures(i as int, mm);
        if i < old_months.len() {
            assert(!month_rank_le(old_months[i as int], mm));
            assert(month_rank_le(mm, old_months[i as int]));
        }
        assert forall|m2: int, n2: int| 0 <= m2 < n2 < months@.len() implies month_rank_le(
            #[trigger] months@[m2],
            #[trigger] months@[n2],
        ) by {
            if n2 < i {
                assert(months@[m2] == old_months[m2] && months@[n2] == old_months[n2]);
            } else if m2 > i {
                assert(months@[m2] == old_months[m2 - 1] && months@[n2] == old_months[n2 - 1]);
            } else if m2 == i {
                assert(months@[m2] == mm && months@[n2] == old_months[n2 - 1]);
            } else if n2 == i {
                assert(months@[m2] == old_months[m2] && months@[n2] == mm);
            } else {
                assert(months@[m2] == old_months[m2] && months@[n2] == old_months[n2 - 1]);
            }
        }
        assert forall|i2: int| 0 <= i2 < months@.len() implies #[trigger] months@[i2] == mm
            || old_months.contains(months@[i2]) by {
            if i2 < i {
                assert(months@[i2] == old_months[i2]);
            } else if i2 > i {
                assert(months@[i2] == old_months[i2 - 1]);
            }
        }
        assert forall|i2: int, j2: int| 0 <= i2 < j2 < months@.len() implies !((
        #[trigger] months@[i2]).year == (#[trigger] months@[j2]).year && months@[i2].month
            == months@[j2].month) by {
            let a = if i2 < i {
                old_months[i2]
            } else if i2 == i {
                mm
            } else {
                old_months[i2 - 1]
            };
            let b = if j2 < i {
                old_months[j2]
            } else if j2 == i {
                mm
            } else {
                old_months[j2 - 1]
            };
            assert(months@[i2] == a && months@[j2] == b);
            if i2 == i && b.year == mm.year && b.month == mm.month {
                assert(old_months[j2 - 1].year == mm.year && old_months[j2 - 1].month == mm.month);
                assert(month_in_list(old_months, mm.year as int, mm.month as int));
            }
            if j2 == i && a.year == mm.year && a.month == mm.month {
                assert(old_months[i2].year == mm.year && old_months[i2].month == mm.month);
                assert(month_in_list(old_months, mm.year as int, mm.month as int));
            }
        }
        assert forall|y2: int, mo2: int| #[trigger]
            month_in_list(months@, y2, mo2) == (month_in_list(old_months, y2, mo2) || (y2
                == mm.year as int && mo2 == mm.month as int)) by {
            if month_in_list(months@, y2, mo2) {
                let j = choose|j: int|
                    0 <= j < months@.len() && (#[trigger] months@[j]).year == y2
                        && months@[j].month == mo2;
                if j < i {
                    assert(old_months[j].year == y2 && old_months[j].month == mo2);
                    assert(month_in_list(old_months, y2, mo2));
                } else if j == i {
                } else {
                    assert(old_months[j - 1].year == y2 && old_months[j - 1].month == mo2);
                    assert(month_in_list(old_months, y2, mo2));
                }
            }
            if month_in_list(old_months, y2, mo2) {
                let j = choose|j: int|
                    0 <= j < old_months.len() && (#[trigger] old_months[j]).year == y2
                        && old_months[j].month == mo2;
                if j < i {
                    assert(months@[j].year == y2 && months@[j].month == mo2);
                } else {
                    assert(months@[j + 1].year == y2 && months@[j + 1].month == mo2);
                }
            }
            if y2 == mm.year as int && mo2 == mm.month as int {
                assert(months@[i as int].year == y2 && months@[i as int].month == mo2);
            }
        }
    }
}

#[verifier::loop_isolation(false)]
#[verifier::rlimit(100)]
fn build_ranking_from_keys(
    files: &Vec<FileEntry>,
    gap_report: Option<&GapReport>,
    anomaly_report: Option<&AnomalyReport>,
    line_id: &str,
    start_date: Date,
    end_date: Date,
    today: Date,
    tiny_threshold: u64,
    always_empty: &Vec<String>,
    keys: &Vec<(i32, u32)>,
) -> (r: MonthlyRankingReport)
    requires
        date_valid(start_date),
        date_valid(end_date),
        date_valid(today),
        files@.len() <= 0x1000_0000_0000,
        gap_report is Some ==> gap_report->0.missing_weekdays@.len() <= 0x1000_0000_0000,
        anomaly_report is Some ==> anomaly_report->0.anomalies@.len() <= 0x1000_0000_0000,
        keys@.len() <= files@.len() + gap_missing_of(gap_report).len(),
        forall|i: int|
            0 <= i < keys@.len() ==> 1 <= (#[trigger] keys@[i]).0 <= 9999 && 1 <= keys@[i].1 <= 12,
        forall|i: int, j: int|
            0 <= i < j < keys@.len() ==> #[trigger] keys@[i] != #[trigger] keys@[j],
        forall|y: int, mo: int| #[trigger]
            key_in_list(keys@, y, mo) == (file_months(files@, line_id@).contains((y, mo))
                || months_of_dates(gap_missing_of(gap_report)).contains((y, mo))),
        forall|n2: Seq<char>| #[trigger]
            name_in_list(always_empty@, n2) == always_empty_name(files@, n2, tiny_threshold),
    ensures
        ({
            let gm = gap_missing_of(gap_report);
            let ga = anomalies_of_report(anomaly_report);
            let ms = r.months@;
            &&& forall|i: int|
                0 <= i < ms.len() ==> metrics_ok(
                    files@,
                    gm,
                    ga,
                    line_id@,
                    start_date,
                    end_date,
                    today,
                    tiny_threshold,
                    #[trigger] ms[i],
                )
            &&& forall|i: int, j: int|
                0 <= i < j < ms.len() ==> month_rank_le(#[trigger] ms[i], #[trigger] ms[j])
            &&& forall|i: int, j: int|
                0 <= i < j < ms.len() ==> !((#[trigger] ms[i]).year == (#[trigger] ms[j]).year
                    && ms[i].month == ms[j].month)
            &&& forall|y: int, mo: int| #[trigger]
                month_in_list(ms, y, mo) == ((file_months(files@, line_id@).contains((y, mo))
                    || months_of_dates(gm).contains((y, mo))) && expected_weekdays_of(
                    y,
                    mo,
                    start_date,
                    end_date,
                    today,
                ) > 0)
            &&& (ms.len() == 0 <==> r.best_month is None)
            &&& (ms.len() == 0 <==> r.worst_month is None)
            &&& (ms.len() > 0 && has_complete(ms) ==> {
                &&& ms.contains(r.best_month->0) && r.best_month->0.is_complete
                &&& ms.contains(r.worst_month->0) && r.worst_month->0.is_complete
                &&& forall|i: int|
                    0 <= i < ms.len() && (#[trigger] ms[i]).is_complete ==> month_rank_le(
                        r.best_month->0,
                        ms[i],
                    ) && month_rank_le(ms[i], r.worst_month->0)
            })
            &&& (ms.len() > 0 && !has_complete(ms) ==> r.best_month == Some(ms[0])
                && r.worst_month == Some(ms[ms.len() - 1]))
            &&& r.average_score == (if ms.len() == 0 {
                Ratio { num: 0, den: 1 }
            } else {
                Ratio {
                    num: sum_scores(ms) as u128,
                    den: (ms.len() * SCORE_SCALE as int) as u128,
                }
            })
            &&& r.line_id@ == line_id@
        }),
{
    let ghost gm = gap_missing_of(gap_report);
    let ghost ga = anomalies_of_report(anomaly_report);
    let mut months: Vec<MonthlyMetrics> = Vec::new();
    let mut k: usize = 0;
    while k < keys.len()
        invariant
            k <= keys@.len(),
            months@.len() <= k,
            forall|i: int|
                0 <= i < months@.len() ==> metrics_ok(
                    files@,
                    gm,
                    ga,
                    line_id@,
                    start_date,
                    end_date,
                    today,
                    tiny_threshold,
                    #[trigger] months@[i],
                ),
            forall|i: int, j: int|
                0 <= i < j < months@.len() ==> month_rank_le(
                    #[trigger] months@[i],
                    #[trigger] months@[j],
                ),
            forall|i: int, j: int|
                0 <= i < j < months@.len() ==> !((#[trigger] months@[i]).year
                    == (#[trigger] months@[j]).year && months@[i].month == months@[j].month),
            forall|y: int, mo: int| #[trigger]
                month_in_list(months@, y, mo) == (key_in_list(keys@.take(k as int), y, mo)
                    && expected_weekdays_of(y, mo, start_date, end_date, today) > 0),
        decreases keys@.len() - k,
    {
        let y = keys[k].0;
        let mo = keys[k].1;
        let ghost old_months = months@;
        proof {
            assert(keys@.take(k as int + 1).drop_last() =~= keys@.take(k as int));
            assert(keys@.take(k as int + 1).last() == keys@[k as int]);
            assert forall|y2: int, mo2: int| #[trigger]
                key_in_list(keys@.take(k as int + 1), y2, mo2) == (key_in_list(
                    keys@.take(k as int),
                    y2,
                    mo2,
                ) || (y2 == y as int && mo2 == mo as int)) by {
                let t1 = keys@.take(k as int + 1);
                let t0 = keys@.take(k as int);
                if key_in_list(t1, y2, mo2) {
                    let i = choose|i: int|
                        0 <= i < t1.len() && (#[trigger] t1[i]).0 == y2 && t1[i].1 == mo2;
                    if i < k {
                        assert(t0[i].0 == y2 && t0[i].1 == mo2);
                    }
                }
                if key_in_list(t0, y2, mo2) {
                    let i = choose|i: int|
                        0 <= i < t0.len() && (#[trigger] t0[i]).0 == y2 && t0[i].1 == mo2;
                    assert(t1[i].0 == y2 && t1[i].1 == mo2);
                }
                if y2 == y as int && mo2 == mo as int {
                    assert(t1[k as int].0 == y2 && t1[k as int].1 == mo2);
                }
            }
            assert(!key_in_list(keys@.take(k as int), y as int, mo as int)) by {
                if key_in_list(keys@.take(k as int), y as int, mo as int) {
                    let i = choose|i: int|
                        0 <= i < keys@.take(k as int).len() && (#[trigger] keys@.take(
                            k as int,
                        )[i]).0 == y as int && keys@.take(k as int)[i].1 == mo as int;
                    assert(keys@[i] == keys@[k as int]);
                }
            }
        }
        let ew = count_expected_weekdays_in_month(y, mo, start_date, end_date, today);
        if ew > 0 {
            let missing = count_missing_in_month(gap_report, y, mo);
            let anomc = count_anomalies_in_month(anomaly_report, line_id, y, mo);
            let inval = count_invalid_in_month(files, line_id, y, mo);
            let empt = count_empty_in_month(
                files,
                line_id,
                y,
                mo,
                tiny_threshold,
                always_empty,
            );
            let actual = count_month_dates(files, line_id, y, mo);
            let me_ = Date { year: y, month: mo, day: days_in_month(y, mo) };
            let complete = date_before(&me_, &today);
            let mut mm = MonthlyMetrics {
                year: y,
                month: mo,
                missing_days: missing,
                anomaly_count: anomc,
                invalid_files: inval,
                empty_files: empt,
                expected_weekdays: ew,
                actual_archives: actual,
                health_score: 0,
                is_complete: complete,
            };
            let score = calculate_health_score(&mm);
            mm.health_score = score;
            proof {
                assert(me_ == month_last(y as int, mo as int));
                assert(metrics_ok(
                    files@,
                    gm,
                    ga,
                    line_id@,
                    start_date,
                    end_date,
                    today,
                    tiny_threshold,
                    mm,
                ));
            }
            proof {
                assert(!month_in_list(old_months, y as int, mo as int));
            }
            insert_month_sorted(&mut months, mm);
            proof {
                assert forall|i2: int| 0 <= i2 < months@.len() implies metrics_ok(
                    files@,
                    gm,
                    ga,
                    line_id@,
                    start_date,
                    end_date,
                    today,
                    tiny_threshold,
                    #[trigger] months@[i2],
                ) by {
                    if months@[i2] == mm {
                    } else {
                        assert(old_months.contains(months@[i2]));
                        let j = choose|j: int|
                            0 <= j < old_months.len() && old_months[j] == months@[i2];
                        assert(metrics_ok(
                            files@,
                            gm,
                            ga,
                            line_id@,
                            start_date,
                            end_date,
                            today,
                            tiny_threshold,
                            old_months[j],
                        ));
                    }
                }
                assert forall|y2: int, mo2: int| #[trigger]
                    month_in_list(months@, y2, mo2) == (key_in_list(
                        keys@.take(k as int + 1),
                        y2,
                        mo2,
                    ) && expected_weekdays_of(y2, mo2, start_date, end_date, today) > 0) by {}
            }
        } else {
            proof {
                assert forall|y2: int, mo2: int| #[trigger]
                    month_in_list(months@, y2, mo2) == (key_in_list(
                        keys@.take(k as int + 1),
                        y2,
                        mo2,
                    ) && expected_weekdays_of(y2, mo2, start_date, end_date, today) > 0) by {}
            }
        }
        k += 1;
    }
    proof {
        assert(keys@.take(keys@.len() as int) =~= keys@);
    }
    // best and worst month, preferring complete months
    let mut best: Option<MonthlyMetrics> = None;
    let mut worst: Option<MonthlyMetrics> = None;
    if months.len() > 0 {
        let mut fc: usize = 0;
        while fc < months.len() && !months[fc].is_complete
            invariant
                fc <= months@.len(),
                forall|j: int| 0 <= j < fc ==> !(#[trigger] months@[j]).is_complete,
            decreases months@.len() - fc,
        {
            fc += 1;
        }
        if fc < months.len() {
            let mut lc: usize = months.len() - 1;
            while !months[lc].is_complete
                invariant
                    fc <= lc < months@.len(),
                    months@[fc as int].is_complete,
                    forall|j: int| lc < j < months@.len() ==> !(#[trigger] months@[j]).is_complete,
                decreases lc,
            {
                lc -= 1;
            }
            best = Some(months[fc]);
            worst = Some(months[lc]);
            proof {
                assert(months@.contains(months@[fc as int]));
                assert(months@.contains(months@[lc as int]));
                assert forall|i: int|
                    0 <= i < months@.len() && (#[trigger] months@[i]).is_complete implies
                month_rank_le(months@[fc as int], months@[i]) && month_rank_le(
                    months@[i],
                    months@[lc as int],
                ) by {
                    assert(fc <= i <= lc);
                }
            }
        } else {
            best = Some(months[0]);
            worst = Some(months[months.len() - 1]);
            proof {
                assert(!has_complete(months@)) by {
                    if has_complete(months@) {
                        let i = choose|i: int|
                            0 <= i < months@.len() && (#[trigger] months@[i]).is_complete;
                        assert(false);
                    }
                }
            }
        }
    }
    // the unweighted mean score over all months
    let mut sum: u128 = 0;
    let mut k3: usize = 0;
    proof {
        assert(months@.take(0) =~= Seq::<MonthlyMetrics>::empty());
    }
    while k3 < months.len()
        invariant
            k3 <= months@.len(),
            sum == sum_scores(months@.take(k3 as int)),
            sum <= k3 * 0x1_0000_0000_0000_0000,
            months@.len() <= 0x2000_0000_0000,
        decreases months@.len() - k3,
    {
        proof {
            assert(months@.take(k3 as int + 1).drop_last() =~= months@.take(k3 as int));
            assert(months@.take(k3 as int + 1).last() == months@[k3 as int]);
            assert(sum + months@[k3 as int].health_score <= (k3 + 1) * 0x1_0000_0000_0000_0000)
                by (nonlinear_arith)
                requires
                    sum <= k3 * 0x1_0000_0000_0000_0000u128,
                    months@[k3 as int].health_score <= 0x1_0000_0000_0000_0000u128,
                    0 <= k3,
            ;
            assert((k3 + 1) * 0x1_0000_0000_0000_0000 <= 0x2000_0000_0000
                * 0x1_0000_0000_0000_0000u128) by (nonlinear_arith)
                requires
                    k3 + 1 <= 0x2000_0000_0000,
            ;
        }
        sum = sum + months[k3].health_score as u128;
        k3 += 1;
    }
    proof {
        assert(months@.take(months@.len() as int) =~= months@);
    }
    let average_score = if months.len() == 0 {
        Ratio { num: 0, den: 1 }
    } else {
        proof {
            assert((months@.len() as int) * (SCORE_SCALE as int) <= 0x2000_0000_0000
                * 722017764468000) by (nonlinear_arith)
                requires
                    months@.len() <= 0x2000_0000_0000,
            ;
        }
        Ratio { num: sum, den: (months.len() as u128) * (SCORE_SCALE as u128) }
    };
    MonthlyRankingReport {
        months,
        best_month: best,
        worst_month: worst,
        average_score,
        line_id: String::from_str(line_id),
    }
}

/// One calendar month as seen from both lines.  `combined_score_x2` is
/// twice the combined score (scaled by `SCORE_SCALE`): the sum of both
/// line scores when both exist, twice the one available score otherwise,
/// so that a one-sided month is never diluted toward zero.
#[derive(Debug, Clone, Copy)]
pub struct CombinedMonthlyMetrics {
    pub year: i32,
    pub month: u32,
    pub line_a_score: Option<u64>,
    pub line_b_score: Option<u64>,
    pub combined_score_x2: u64,
    pub line_a_metrics: Option<MonthlyMetrics>,
    pub line_b_metrics: Option<MonthlyMetrics>,
}

/// Cross-line ranking: every month of either line, the best and worst
/// month (preferring months with data from both lines), and the three
/// averages as exact ratios.
#[derive(Debug)]
pub struct CombinedRankingReport {
    pub months: Vec<CombinedMonthlyMetrics>,
    pub best_month: Option<CombinedMonthlyMetrics>,
    pub worst_month: Option<CombinedMonthlyMetrics>,
    pub line_a_average: Ratio,
    pub line_b_average: Ratio,
    pub combined_average: Ratio,
}

/// The last entry of the list for month `(y, mo)`, if any.
pub open spec fn find_month(ms: Seq<MonthlyMetrics>, y: int, mo: int) -> Option<MonthlyMetrics>
    decreases ms.len(),
{
    if ms.len() == 0 {
        None
    } else if ms.last().year == y && ms.last().month == mo {
        Some(ms.last())
    } else {
        find_month(ms.drop_last(), y, mo)
    }
}

/// What a correct combined entry states about the two line reports.
pub open spec fn combined_ok(
    am: Seq<MonthlyMetrics>,
    bm: Seq<MonthlyMetrics>,
    c: CombinedMonthlyMetrics,
) -> bool {
    let fa = find_month(am, c.year as int, c.month as int);
    let fb = find_month(bm, c.year as int, c.month as int);
    &&& c.line_a_metrics == fa
    &&& c.line_b_metrics == fb
    &&& c.line_a_score == (if fa is Some {
        Some(fa->0.health_score)
    } else {
        None::<u64>
    })
    &&& c.line_b_score == (if fb is Some {
        Some(fb->0.health_score)
    } else {
        None::<u64>
    })
    &&& c.combined_score_x2 == (if fa is Some && fb is Some {
        fa->0.health_score + fb->0.health_score
    } else if fa is Some {
        2 * fa->0.health_score
    } else if fb is Some {
        2 * fb->0.health_score
    } else {
        0int
    })
}

/// Ranking order on combined months: higher combined score first, ties
/// broken by calendar month ascending.
pub open spec fn combined_rank_le(a: CombinedMonthlyMetrics, b: CombinedMonthlyMetrics) -> bool {
    ||| a.combined_score_x2 > b.combined_score_x2
    ||| (a.combined_score_x2 == b.combined_score_x2 && (a.year < b.year || (a.year == b.year
        && a.month <= b.month)))
}

/// Some combined month of the list is `(y, mo)`.
pub open spec fn month_in_combined(ms: Seq<CombinedMonthlyMetrics>, y: int, mo: int) -> bool {
    exists|i: int| 0 <= i < ms.len() && (#[trigger] ms[i]).year == y && ms[i].month == mo
}

/// Both lines contributed to some combined month.
pub open spec fn has_both_lines(ms: Seq<CombinedMonthlyMetrics>) -> bool {
    exists|i: int|
        0 <= i < ms.len() && (#[trigger] ms[i]).line_a_score is Some && ms[i].line_b_score is Some
}

fn find_month_exec(ms: &Vec<MonthlyMetrics>, y: i32, mo: u32) -> (r: Option<MonthlyMetrics>)
    ensures
        r == find_month(ms@, y as int, mo as int),
{
    let mut i: usize = ms.len();
    proof {
        assert(ms@.take(ms@.len() as int) =~= ms@);
    }
    while i > 0
        invariant
            i <= ms@.len(),
            find_month(ms@, y as int, mo as int) == find_month(
                ms@.take(i as int),
                y as int,
                mo as int,
            ),
        decreases i,
    {
        i = i - 1;
        proof {
            assert(ms@.take(i as int + 1).drop_last() =~= ms@.take(i as int));
            assert(ms@.take(i as int + 1).last() == ms@[i as int]);
        }
        if ms[i].year == y && ms[i].month == mo {
            proof {
                assert(find_month(ms@.take(i as int + 1), y as int, mo as int) == Some(
                    ms@[i as int],
                ));
            }
            return Some(ms[i]);
        }
    }
    proof {
        assert(ms@.take(0) =~= Seq::<MonthlyMetrics>::empty());
    }
    None
}

fn combined_rank_le_exec(a: &CombinedMonthlyMetrics, b: &CombinedMonthlyMetrics) -> (r: bool)
    ensures
        r == combined_rank_le(*a, *b),
{
    a.combined_score_x2 > b.combined_score_x2 || (a.combined_score_x2 == b.combined_score_x2 && (
    a.year < b.year || (a.year == b.year && a.month <= b.month)))
}

fn collect_report_month_keys(am: &Vec<MonthlyMetrics>, keys: &mut Vec<(i32, u32)>)
    requires
        forall|i: int, j: int|
            0 <= i < j < old(keys)@.len() ==> #[trigger] old(keys)@[i] != #[trigger] old(keys)@[j],
    ensures
        forall|i: int, j: int|
            0 <= i < j < final(keys)@.len() ==> #[trigger] final(keys)@[i]
                != #[trigger] final(keys)@[j],
        forall|y: int, mo: int| #[trigger]
            key_in_list(final(keys)@, y, mo) == (key_in_list(old(keys)@, y, mo) || month_in_list(
                am@,
                y,
                mo,
            )),
{
    let mut k: usize = 0;
    while k < am.len()
        invariant
            k <= am@.len(),
            forall|i: int, j: int|
                0 <= i < j < keys@.len() ==> #[trigger] keys@[i] != #[trigger] keys@[j],
            forall|y: int, mo: int| #[trigger]
                key_in_list(keys@, y, mo) == (key_in_list(old(keys)@, y, mo) || month_in_list(
                    am@.take(k as int),
                    y,
                    mo,
                )),
        decreases am@.len() - k,
    {
        let ghost old_keys = keys@;
        let y = am[k].year;
        let mo = am[k].month;
        let present = key_list_contains(keys, y, mo);
        if !present {
            keys.push((y, mo));
            proof {
                assert(forall|j: int|
                    0 <= j < old_keys.len() ==> !((#[trigger] old_keys[j]).0 == y && old_keys[j].1
                        == mo));
                assert(forall|j: int| 0 <= j < old_keys.len() ==> keys@[j] == old_keys[j]);
            }
        }
        proof {
            assert forall|y2: int, mo2: int| #[trigger]
                key_in_list(keys@, y2, mo2) == (key_in_list(old(keys)@, y2, mo2) || month_in_list(
                    am@.take(k as int + 1),
                    y2,
                    mo2,
                )) by {
                let t1 = am@.take(k as int + 1);
                let t0 = am@.take(k as int);
                if key_in_list(keys@, y2, mo2) {
                    let i = choose|i: int|
                        0 <= i < keys@.len() && (#[trigger] keys@[i]).0 == y2 && keys@[i].1 == mo2;
                    if i < old_keys.len() {
                        assert(old_keys[i].0 == y2 && old_keys[i].1 == mo2);
                        assert(key_in_list(old_keys, y2, mo2));
                    } else {
                        assert(y2 == y as int && mo2 == mo as int);
                        assert(t1[k as int].year == y2 && t1[k as int].month == mo2);
                        assert(month_in_list(t1, y2, mo2));
                    }
                }
                if key_in_list(old_keys, y2, mo2) {
                    let i = choose|i: int|
                        0 <= i < old_keys.len() && (#[trigger] old_keys[i]).0 == y2
                            && old_keys[i].1 == mo2;
                    assert(keys@[i].0 == y2 && keys@[i].1 == mo2);
                }
                if month_in_list(t1, y2, mo2) {
                    let i = choose|i: int|
                        0 <= i < t1.len() && (#[trigger] t1[i]).year == y2 && t1[i].month == mo2;
                    if i < k {
                        assert(t0[i].year == y2 && t0[i].month == mo2);
                        assert(month_in_list(t0, y2, mo2));
                        assert(key_in_list(old_keys, y2, mo2));
                        let j = choose|j: int|
                            0 <= j < old_keys.len() && (#[trigger] old_keys[j]).0 == y2
                                && old_keys[j].1 == mo2;
                        assert(keys@[j].0 == y2 && keys@[j].1 == mo2);
                    } else {
                        assert(y2 == y as int && mo2 == mo as int);
                        if present {
                            let j = choose|j: int|
                                0 <= j < old_keys.len() && (#[trigger] old_keys[j]).0 == y2
                                    && old_keys[j].1 == mo2;
                            assert(keys@[j].0 == y2 && keys@[j].1 == mo2);
                        } else {
                            assert(keys@[keys@.len() - 1].0 == y2 && keys@[keys@.len() - 1].1
                                == mo2);
                        }
                    }
                }
                if month_in_list(t0, y2, mo2) {
                    let i = choose|i: int|
                        0 <= i < t0.len() && (#[trigger] t0[i]).year == y2 && t0[i].month == mo2;
                    assert(t1[i].year == y2 && t1[i].month == mo2);
                }
            }
        }
        k += 1;
    }
    proof {
        assert(am@.take(am@.len() as int) =~= am@);
    }
}

/// Merges the monthly rankings of the two lines: one combined entry per
/// month of either line, ranked by combined score; the combined score of
/// a month is the mean of whichever line scores exist.  Best and worst
/// prefer months with data from both lines; the combined average is the
/// mean of the two line averages.
#[verifier::loop_isolation(false)]
#[verifier::rlimit(100)]
pub fn combine_rankings(line_a: &MonthlyRankingReport, line_b: &MonthlyRankingReport) -> (r:
    CombinedRankingReport)
    requires
        forall|i: int|
            0 <= i < line_a.months@.len() ==> (#[trigger] line_a.months@[i]).health_score
                <= 0x7FFF_FFFF_FFFF_FFFF,
        forall|i: int|
            0 <= i < line_b.months@.len() ==> (#[trigger] line_b.months@[i]).health_score
                <= 0x7FFF_FFFF_FFFF_FFFF,
        line_a.average_score.num <= 90_000_000_000_000_000_000,
        line_b.average_score.num <= 90_000_000_000_000_000_000,
        1 <= line_a.average_score.den <= 900_000_000_000_000_000,
        1 <= line_b.average_score.den <= 900_000_000_000_000_000,
    ensures
        ({
            let am = line_a.months@;
            let bm = line_b.months@;
            let ms = r.months@;
            &&& forall|i: int| 0 <= i < ms.len() ==> combined_ok(am, bm, #[trigger] ms[i])
            &&& forall|i: int, j: int|
                0 <= i < j < ms.len() ==> combined_rank_le(#[trigger] ms[i], #[trigger] ms[j])
            &&& forall|i: int, j: int|
                0 <= i < j < ms.len() ==> !((#[trigger] ms[i]).year == (#[trigger] ms[j]).year
                    && ms[i].month == ms[j].month)
            &&& forall|y: int, mo: int| #[trigger]
                month_in_combined(ms, y, mo) == (month_in_list(am, y, mo) || month_in_list(
                    bm,
                    y,
                    mo,
                ))
            &&& (ms.len() == 0 <==> r.best_month is None)
            &&& (ms.len() == 0 <==> r.worst_month is None)
            &&& (ms.len() > 0 && has_both_lines(ms) ==> {
                &&& ms.contains(r.best_month->0) && r.best_month->0.line_a_score is Some
                    && r.best_month->0.line_b_score is Some
                &&& ms.contains(r.worst_month->0) && r.worst_month->0.line_a_score is Some
                    && r.worst_month->0.line_b_score is Some
                &&& forall|i: int|
                    0 <= i < ms.len() && (#[trigger] ms[i]).line_a_score is Some
                        && ms[i].line_b_score is Some ==> combined_rank_le(r.best_month->0, ms[i])
                        && combined_rank_le(ms[i], r.worst_month->0)
            })
            &&& (ms.len() > 0 && !has_both_lines(ms) ==> r.best_month == Some(ms[0])
                && r.worst_month == Some(ms[ms.len() - 1]))
            &&& r.line_a_average == line_a.average_score
            &&& r.line_b_average == line_b.average_score
            &&& r.combined_average == (Ratio {
                num: (line_a.average_score.num * line_b.average_score.den
                    + line_b.average_score.num * line_a.average_score.den) as u128,
                den: (2 * line_a.average_score.den * line_b.average_score.den) as u128,
            })
        }),
{
    let mut keys: Vec<(i32, u32)> = Vec::new();
    collect_report_month_keys(&line_a.months, &mut keys);
    let ghost mid_keys = keys@;
    collect_report_month_keys(&line_b.months, &mut keys);
    let mut months: Vec<CombinedMonthlyMetrics> = Vec::new();
    let mut k: usize = 0;
    while k < keys.len()
        invariant
            k <= keys@.len(),
            forall|i: int, j: int|
                0 <= i < j < keys@.len() ==> #[trigger] keys@[i] != #[trigger] keys@[j],
            forall|y: int, mo: int| #[trigger]
                key_in_list(keys@, y, mo) == (month_in_list(line_a.months@, y, mo)
                    || month_in_list(line_b.months@, y, mo)),
            forall|i: int|
                0 <= i < months@.len() ==> combined_ok(
                    line_a.months@,
                    line_b.months@,
                    #[trigger] months@[i],
                ),
            forall|i: int, j: int|
                0 <= i < j < months@.len() ==> combined_rank_le(
                    #[trigger] months@[i],
                    #[trigger] months@[j],
                ),
            forall|i: int, j: int|
                0 <= i < j < months@.len() ==> !((#[trigger] months@[i]).year
                    == (#[trigger] months@[j]).year && months@[i].month == months@[j].month),
            forall|y: int, mo: int| #[trigger]
                month_in_combined(months@, y, mo) == key_in_list(keys@.take(k as int), y, mo),
        decreases keys@.len() - k,
    {
        let y = keys[k].0;
        let mo = keys[k].1;
        let ghost old_months = months@;
        proof {
            assert(keys@.take(k as int + 1).drop_last() =~= keys@.take(k as int));
            assert(keys@.take(k as int + 1).last() == keys@[k as int]);
            assert forall|y2: int, mo2: int| #[trigger]
                key_in_list(keys@.take(k as int + 1), y2, mo2) == (key_in_list(
                    keys@.take(k as int),
                    y2,
                    mo2,
                ) || (y2 == y as int && mo2 == mo as int)) by {
                let t1 = keys@.take(k as int + 1);
                let t0 = keys@.take(k as int);
                if key_in_list(t1, y2, mo2) {
                    let i = choose|i: int|
                        0 <= i < t1.len() && (#[trigger] t1[i]).0 == y2 && t1[i].1 == mo2;
                    if i < k {
                        assert(t0[i].0 == y2 && t0[i].1 == mo2);
                    }
                }
                if key_in_list(t0, y2, mo2) {
                    let i = choose|i: int|
                        0 <= i < t0.len() && (#[trigger] t0[i]).0 == y2 && t0[i].1 == mo2;
                    assert(t1[i].0 == y2 && t1[i].1 == mo2);
                }
                if y2 == y as int && mo2 == mo as int {
                    assert(t1[k as int].0 == y2 && t1[k as int].1 == mo2);
                }
            }
            assert(!key_in_list(keys@.take(k as int), y as int, mo as int)) by {
                if key_in_list(keys@.take(k as int), y as int, mo as int) {
                    let i = choose|i: int|
                        0 <= i < keys@.take(k as int).len() && (#[trigger] keys@.take(
                            k as int,
                        )[i]).0 == y as int && keys@.take(k as int)[i].1 == mo as int;
                    assert(keys@[i] == keys@[k as int]);
                }
            }
        }
        let fa = find_month_exec(&line_a.months, y, mo);
        let fb = find_month_exec(&line_b.months, y, mo);
        proof {
            if find_month(line_a.months@, y as int, mo as int) is Some {
                lemma_find_month_bounded(line_a.months@, y as int, mo as int);
            }
            if find_month(line_b.months@, y as int, mo as int) is Some {
                lemma_find_month_bounded(line_b.months@, y as int, mo as int);
            }
        }
        let (a_score, b_score, cx2): (Option<u64>, Option<u64>, u64) = match (&fa, &fb) {
            (Some(x), Some(z)) => (
                Some(x.health_score),
                Some(z.health_score),
                x.health_score + z.health_score,
            ),
            (Some(x), None) => (Some(x.health_score), None, 2 * x.health_score),
            (None, Some(z)) => (None, Some(z.health_score), 2 * z.health_score),
            (None, None) => (None, None, 0),
        };
        let cm = CombinedMonthlyMetrics {
            year: y,
            month: mo,
            line_a_score: a_score,
            line_b_score: b_score,
            combined_score_x2: cx2,
            line_a_metrics: fa,
            line_b_metrics: fb,
        };
        proof {
            assert(combined_ok(line_a.months@, line_b.months@, cm));
        }
        let mut i: usize = 0;
        while i < months.len() && combined_rank_le_exec(&months[i], &cm)
            invariant
                i <= months@.len(),
                months@ == old_months,
                forall|j: int| 0 <= j < i ==> combined_rank_le(#[trigger] months@[j], cm),
            decreases months@.len() - i,
        {
            i += 1;
        }
        months.insert(i, cm);
        proof {
            old_months.insert_ensures(i as int, cm);
            if i < old_months.len() {
                assert(!combined_rank_le(old_months[i as int], cm));
                assert(combined_rank_le(cm, old_months[i as int]));
            }
            assert forall|m2: int, n2: int| 0 <= m2 < n2 < months@.len() implies combined_rank_le(
                #[trigger] months@[m2],
                #[trigger] months@[n2],
            ) by {
                if n2 < i {
                    assert(months@[m2] == old_months[m2] && months@[n2] == old_months[n2]);
                } else if m2 > i {
                    assert(months@[m2] == old_months[m2 - 1] && months@[n2] == old_months[n2 - 1]);
                } else if m2 == i {
                    assert(months@[m2] == cm && months@[n2] == old_months[n2 - 1]);
                } else if n2 == i {
                    assert(months@[m2] == old_months[m2] && months@[n2] == cm);
                } else {
                    assert(months@[m2] == old_months[m2] && months@[n2] == old_months[n2 - 1]);
                }
            }
            assert forall|i2: int| 0 <= i2 < months@.len() implies combined_ok(
                line_a.months@,
                line_b.months@,
                #[trigger] months@[i2],
            ) by {
                if i2 < i {
                    assert(months@[i2] == old_months[i2]);
                } else if i2 == i {
                    assert(months@[i2] == cm);
                } else {
                    assert(months@[i2] == old_months[i2 - 1]);
                }
            }
            assert(!month_in_combined(old_months, y as int, mo as int));
            assert forall|i2: int, j2: int| 0 <= i2 < j2 < months@.len() implies !((
            #[trigger] months@[i2]).year == (#[trigger] months@[j2]).year && months@[i2].month
                == months@[j2].month) by {
                let a = if i2 < i {
                    old_months[i2]
                } else if i2 == i {
                    cm
                } else {
                    old_months[i2 - 1]
                };
                let b = if j2 < i {
                    old_months[j2]
                } else if j2 == i {
                    cm
                } else {
                    old_months[j2 - 1]
                };
                assert(months@[i2] == a && months@[j2] == b);
                if i2 == i && b.year == cm.year && b.month == cm.month {
                    assert(old_months[j2 - 1].year == y && old_months[j2 - 1].month == mo);
                    assert(month_in_combined(old_months, y as int, mo as int));
                }
                if j2 == i && a.year == cm.year && a.month == cm.month {
                    assert(old_months[i2].year == y && old_months[i2].month == mo);
                    assert(month_in_combined(old_months, y as int, mo as int));
                }
            }
            assert forall|y2: int, mo2: int| #[trigger]
                month_in_combined(months@, y2, mo2) == key_in_list(
                    keys@.take(k as int + 1),
                    y2,
                    mo2,
                ) by {
                if month_in_combined(months@, y2, mo2) {
                    let j = choose|j: int|
                        0 <= j < months@.len() && (#[trigger] months@[j]).year == y2
                            && months@[j].month == mo2;
                    if j < i {
                        assert(old_months[j].year == y2 && old_months[j].month == mo2);
                        assert(month_in_combined(old_months, y2, mo2));
                    } else if j == i {
                        assert(y2 == y as int && mo2 == mo as int);
                    } else {
                        assert(old_months[j - 1].year == y2 && old_months[j - 1].month == mo2);
                        assert(month_in_combined(old_months, y2, mo2));
                    }
                }
                if month_in_combined(old_months, y2, mo2) {
                    let j = choose|j: int|
                        0 <= j < old_months.len() && (#[trigger] old_months[j]).year == y2
                            && old_months[j].month == mo2;
                    if j < i {
                        assert(months@[j].year == y2 && months@[j].month == mo2);
                    } else {
                        assert(months@[j + 1].year == y2 && months@[j + 1].month == mo2);
                    }
                }
                if y2 == y as int && mo2 == mo as int {
                    assert(months@[i as int].year == y2 && months@[i as int].month == mo2);
                }
            }
        }
        k += 1;
    }
    proof {
        assert(keys@.take(keys@.len() as int) =~= keys@);
    }
    // best and worst, preferring months with data from both lines
    let mut best: Option<CombinedMonthlyMetrics> = None;
    let mut worst: Option<CombinedMonthlyMetrics> = None;
    if months.len() > 0 {
        let mut fc: usize = 0;
        while fc < months.len() && !(months[fc].line_a_score.is_some()
            && months[fc].line_b_score.is_some())
            invariant
                fc <= months@.len(),
                forall|j: int|
                    0 <= j < fc ==> !((#[trigger] months@[j]).line_a_score is Some
                        && months@[j].line_b_score is Some),
            decreases months@.len() - fc,
        {
            fc += 1;
        }
        if fc < months.len() {
            let mut lc: usize = months.len() - 1;
            while !(months[lc].line_a_score.is_some() && months[lc].line_b_score.is_some())
                invariant
                    fc <= lc < months@.len(),
                    months@[fc as int].line_a_score is Some && months@[fc as int].line_b_score
                        is Some,
                    forall|j: int|
                        lc < j < months@.len() ==> !((#[trigger] months@[j]).line_a_score is Some
                            && months@[j].line_b_score is Some),
                decreases lc,
            {
                lc -= 1;
            }
            best = Some(months[fc]);
            worst = Some(months[lc]);
            proof {
                assert(months@.contains(months@[fc as int]));
                assert(months@.contains(months@[lc as int]));
                assert forall|i: int|
                    0 <= i < months@.len() && (#[trigger] months@[i]).line_a_score is Some
                        && months@[i].line_b_score is Some implies combined_rank_le(
                    months@[fc as int],
                    months@[i],
                ) && combined_rank_le(months@[i], months@[lc as int]) by {
                    assert(fc <= i <= lc);
                }
            }
        } else {
            best = Some(months[0]);
            worst = Some(months[months.len() - 1]);
            proof {
                assert(!has_both_lines(months@)) by {
                    if has_both_lines(months@) {
                        let i = choose|i: int|
                            0 <= i < months@.len() && (#[trigger] months@[i]).line_a_score is Some
                                && months@[i].line_b_score is Some;
                        assert(false);
                    }
                }
            }
        }
    }
    proof {
        assert(line_a.average_score.num * line_b.average_score.den + line_b.average_score.num
            * line_a.average_score.den < 0x1_0000_0000_0000_0000_0000_0000_0000_0000)
            by (nonlinear_arith)
            requires
                line_a.average_score.num <= 90_000_000_000_000_000_000u128,
                line_b.average_score.num <= 90_000_000_000_000_000_000u128,
                1 <= line_a.average_score.den <= 900_000_000_000_000_000u128,
                1 <= line_b.average_score.den <= 900_000_000_000_000_000u128,
        ;
        assert(2 * line_a.average_score.den * line_b.average_score.den
            < 0x1_0000_0000_0000_0000_0000_0000_0000_0000) by (nonlinear_arith)
            requires
                1 <= line_a.average_score.den <= 900_000_000_000_000_000u128,
                1 <= line_b.average_score.den <= 900_000_000_000_000_000u128,
        ;
    }
    let combined_average = Ratio {
        num: line_a.average_score.num * line_b.average_score.den + line_b.average_score.num
            * line_a.average_score.den,
        den: 2 * line_a.average_score.den * line_b.average_score.den,
    };
    CombinedRankingReport {
        months,
        best_month: best,
        worst_month: worst,
        line_a_average: line_a.average_score,
        line_b_average: line_b.average_score,
        combined_average,
    }
}

proof fn lemma_find_month_bounded(ms: Seq<MonthlyMetrics>, y: int, mo: int)
    requires
        forall|i: int| 0 <= i < ms.len() ==> (#[trigger] ms[i]).health_score
            <= 0x7FFF_FFFF_FFFF_FFFF,
        find_month(ms, y, mo) is Some,
    ensures
        find_month(ms, y, mo)->0.health_score <= 0x7FFF_FFFF_FFFF_FFFF,
    decreases ms.len(),
{
    if ms.len() > 0 {
        if ms.last().year == y && ms.last().month == mo {
            assert(ms[ms.len() - 1].health_score <= 0x7FFF_FFFF_FFFF_FFFF);
        } else {
            assert(forall|i: int|
                0 <= i < ms.len() - 1 ==> #[trigger] ms.drop_last()[i] == ms[i]);
            lemma_find_month_bounded(ms.drop_last(), y, mo);
        }
    }
}

/// The below-threshold dated records of month `(y, m)` named `name`,
/// with no exclusion.
pub open spec fn month_empty_count_of_name(
    files: Seq<FileEntry>,
    line: Seq<char>,
    y: int,
    m: int,
    thr: u64,
    name: Seq<char>,
) -> int
    decreases files.len(),
{
    if files.len() == 0 {
        0
    } else {
        let d = extract_date_spec(files.last().parent_dir@, line);
        month_empty_count_of_name(files.drop_last(), line, y, m, thr, name) + (if d is Some
            && d->0.year == y && d->0.month == m && files.last().size < thr && files.last().name@
            == name {
            1int
        } else {
            0int
        })
    }
}

/// The part of the month's empty-file count contributed by records named
/// `name`.
pub open spec fn month_counted_empty_of_name(
    files: Seq<FileEntry>,
    line: Seq<char>,
    y: int,
    m: int,
    thr: u64,
    all_files: Seq<FileEntry>,
    name: Seq<char>,
) -> int
    decreases files.len(),
{
    if files.len() == 0 {
        0
    } else {
        let d = extract_date_spec(files.last().parent_dir@, line);
        month_counted_empty_of_name(files.drop_last(), line, y, m, thr, all_files, name) + (if d
            is Some && d->0.year == y && d->0.month == m && files.last().size < thr
            && files.last().name@ == name && !always_empty_name(all_files, name, thr) {
            1int
        } else {
            0int
        })
    }
}

/// The part of the month's empty-file count contributed by records not
/// named `name`.
pub open spec fn month_counted_empty_except_name(
    files: Seq<FileEntry>,
    line: Seq<char>,
    y: int,
    m: int,
    thr: u64,
    all_files: Seq<FileEntry>,
    name: Seq<char>,
) -> int
    decreases files.len(),
{
    if files.len() == 0 {
        0
    } else {
        let d = extract_date_spec(files.last().parent_dir@, line);
        month_counted_empty_except_name(files.drop_last(), line, y, m, thr, all_files, name) + (
        if d is Some && d->0.year == y && d->0.month == m && files.last().size < thr
            && files.last().name@ != name && !always_empty_name(
            all_files,
            files.last().name@,
            thr,
        ) {
            1int
        } else {
            0int
        })
    }
}

/// A file name that is below the threshold in every one of its records
/// contributes nothing to a month's empty-file count; a name that is
/// empty in only some records contributes every one of its
/// below-threshold records of the month.  The month's count is the sum
/// of one name's contribution and everything the other names contribute.
pub proof fn lemma_empty_files_exclusion(
    files: Seq<FileEntry>,
    line: Seq<char>,
    y: int,
    m: int,
    thr: u64,
    name: Seq<char>,
)
    ensures
        always_empty_name(files, name, thr) ==> month_counted_empty_of_name(
            files,
            line,
            y,
            m,
            thr,
            files,
            name,
        ) == 0,
        !always_empty_name(files, name, thr) ==> month_counted_empty_of_name(
            files,
            line,
            y,
            m,
            thr,
            files,
            name,
        ) == month_empty_count_of_name(files, line, y, m, thr, name),
        empty_in_month(files, line, y, m, thr, files) == month_counted_empty_of_name(
            files,
            line,
            y,
            m,
            thr,
            files,
            name,
        ) + month_counted_empty_except_name(files, line, y, m, thr, files, name),
{
    lemma_empty_split(files, line, y, m, thr, files, name);
}

proof fn lemma_empty_split(
    files: Seq<FileEntry>,
    line: Seq<char>,
    y: int,
    m: int,
    thr: u64,
    all_files: Seq<FileEntry>,
    name: Seq<char>,
)
    ensures
        always_empty_name(all_files, name, thr) ==> month_counted_empty_of_name(
            files,
            line,
            y,
            m,
            thr,
            all_files,
            name,
        ) == 0,
        !always_empty_name(all_files, name, thr) ==> month_counted_empty_of_name(
            files,
            line,
            y,
            m,
            thr,
            all_files,
            name,
        ) == month_empty_count_of_name(files, line, y, m, thr, name),
        empty_in_month(files, line, y, m, thr, all_files) == month_counted_empty_of_name(
            files,
            line,
            y,
            m,
            thr,
            all_files,
            name,
        ) + month_counted_empty_except_name(files, line, y, m, thr, all_files, name),
    decreases files.len(),
{
    if files.len() > 0 {
        lemma_empty_split(files.drop_last(), line, y, m, thr, all_files, name);
    }
}

} // verus!
