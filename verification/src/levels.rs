use vstd::prelude::*;

verus! {

/// Cumulative experience needed to reach each skill level, as `(level, experience)`.
pub const EXPERIENCE_PER_LEVEL: [(i32, i64); 110] = [
    (1, 0),
    (2, 520),
    (3, 1100),
    (4, 1740),
    (5, 2460),
    (6, 3270),
    (7, 4170),
    (8, 5170),
    (9, 6290),
    (10, 7540),
    (11, 8930),
    (12, 10490),
    (13, 12220),
    (14, 14160),
    (15, 16320),
    (16, 18730),
    (17, 21420),
    (18, 24410),
    (19, 27760),
    (20, 31490),
    (21, 35660),
    (22, 40310),
    (23, 45490),
    (24, 51280),
    (25, 57740),
    (26, 64940),
    (27, 72980),
    (28, 81940),
    (29, 91950),
    (30, 103110),
    (31, 115560),
    (32, 129460),
    (33, 144960),
    (34, 162260),
    (35, 181560),
    (36, 203100),
    (37, 227130),
    (38, 253930),
    (39, 283840),
    (40, 317220),
    (41, 354450),
    (42, 396000),
    (43, 442350),
    (44, 494070),
    (45, 551770),
    (46, 616150),
    (47, 687980),
    (48, 768130),
    (49, 857560),
    (50, 957330),
    (51, 1068650),
    (52, 1192860),
    (53, 1331440),
    (54, 1486060),
    (55, 1658570),
    (56, 1851060),
    (57, 2065820),
    (58, 2305430),
    (59, 2572780),
    (60, 2871080),
    (61, 3203890),
    (62, 3575230),
    (63, 3989550),
    (64, 4451810),
    (65, 4967590),
    (66, 5543050),
    (67, 6185120),
    (68, 6901500),
    (69, 7700800),
    (70, 8592610),
    (71, 9587630),
    (72, 10697810),
    (73, 11936490),
    (74, 13318540),
    (75, 14860540),
    (76, 16581010),
    (77, 18500600),
    (78, 20642370),
    (79, 23032020),
    (80, 25698250),
    (81, 28673070),
    (82, 31992200),
    (83, 35695470),
    (84, 39827360),
    (85, 44437480),
    (86, 49581160),
    (87, 55320170),
    (88, 61723410),
    (89, 68867770),
    (90, 76839000),
    (91, 85732810),
    (92, 95656000),
    (93, 106727680),
    (94, 119080790),
    (95, 132863630),
    (96, 148241700),
    (97, 165399620),
    (98, 184543380),
    (99, 205902840),
    (100, 229734400),
    (101, 256324240),
    (102, 285991580),
    (103, 319092580),
    (104, 356024680),
    (105, 397231240),
    (106, 443207040),
    (107, 494504080),
    (108, 551738200),
    (109, 615596560),
    (110, 686845760),
];

/// Index of the table row that an experience value falls into: the last row whose
/// threshold does not exceed the experience.
pub open spec fn is_level_row(experience: int, i: int) -> bool {
    &&& 0 <= i < 110
    &&& EXPERIENCE_PER_LEVEL@[i].1 <= experience
    &&& (i == 109 || experience < EXPERIENCE_PER_LEVEL@[i + 1].1)
}

/// The level of the last of the first `rows` table rows whose threshold `experience`
/// reaches; 100 when it reaches none of them.
pub open spec fn last_reached_level(experience: int, rows: int) -> i32
    decreases rows,
{
    if rows <= 0 {
        100
    } else if EXPERIENCE_PER_LEVEL@[rows - 1].1 <= experience {
        EXPERIENCE_PER_LEVEL@[rows - 1].0
    } else {
        last_reached_level(experience, rows - 1)
    }
}

/// The level of a skill with `experience`: 1 for none, else that of the last table
/// row whose threshold it reaches (100 for a negative value, which reaches no row).
pub open spec fn level_for(experience: int) -> i32 {
    if experience == 0 {
        1
    } else {
        last_reached_level(experience, 110)
    }
}

/// Level reached with the given experience in one skill.
///
/// No experience is level 1; otherwise the level is that of the last table row whose
/// threshold the experience reaches. A negative value reaches no row and reads as level 100.
pub fn experience_to_level(experience: i64) -> (level: i32)
    ensures
        experience == 0 ==> level == 1,
        experience < 0 ==> level == 100,
        experience > 0 ==> exists|i: int| is_level_row(experience as int, i)
            && level == EXPERIENCE_PER_LEVEL@[i].0,
        level == level_for(experience as int),
{
    if experience == 0 {
        return 1;
    }
    let table = EXPERIENCE_PER_LEVEL;
    let mut i: usize = 110;
    while i > 0
        invariant
            i <= 110,
            table@ == EXPERIENCE_PER_LEVEL@,
            forall|j: int| i <= j < 110 ==> experience < #[trigger] table@[j].1,
            experience != 0,
            level_for(experience as int) == last_reached_level(experience as int, i as int),
        decreases i,
    {
        let (level, xp) = table[i - 1];
        if experience >= xp {
            assert(is_level_row(experience as int, i - 1));
            return level;
        }
        i = i - 1;
    }
    assert(table@[0].1 == 0);
    100
}

/// Row `i` of the table is level `i + 1`, and the thresholds increase from 0.
proof fn lemma_table_rows()
    ensures
        EXPERIENCE_PER_LEVEL@[0].1 == 0,
        forall|i: int| 0 <= i < 110 ==> #[trigger] EXPERIENCE_PER_LEVEL@[i].0 == i + 1,
        forall|i: int| 0 <= i < 109 ==> #[trigger] EXPERIENCE_PER_LEVEL@[i].1 < EXPERIENCE_PER_LEVEL@[i + 1].1,
{
}

/// Of non-negative experience, the level read from the first `rows` rows is between 1
/// and the level of the last of them.
proof fn lemma_last_reached_bounds(x: int, rows: int)
    requires
        0 <= x,
        1 <= rows <= 110,
    ensures
        1 <= last_reached_level(x, rows) <= rows,
    decreases rows,
{
    lemma_table_rows();
    if EXPERIENCE_PER_LEVEL@[rows - 1].1 > x {
        assert(rows - 1 != 0);
        lemma_last_reached_bounds(x, rows - 1);
    }
}

proof fn lemma_last_reached_monotone(a: int, b: int, rows: int)
    requires
        0 <= a <= b,
        1 <= rows <= 110,
    ensures
        last_reached_level(a, rows) <= last_reached_level(b, rows),
    decreases rows,
{
    lemma_table_rows();
    if EXPERIENCE_PER_LEVEL@[rows - 1].1 <= b {
        if EXPERIENCE_PER_LEVEL@[rows - 1].1 > a {
            assert(rows - 1 != 0);
            lemma_last_reached_bounds(a, rows - 1);
        }
    } else {
        assert(rows - 1 != 0);
        lemma_last_reached_monotone(a, b, rows - 1);
    }
}

/// More experience never gives a lower level: for `0 <= a <= b`, the level of `a` is
/// at most the level of `b`.
pub proof fn lemma_level_monotone(a: int, b: int)
    requires
        0 <= a <= b,
    ensures
        level_for(a) <= level_for(b),
{
    if a == 0 {
        if b != 0 {
            lemma_last_reached_bounds(b, 110);
        }
    } else {
        lemma_last_reached_monotone(a, b, 110);
    }
}

} // verus!
