//! What the construction protocol builds: for each voxel and panel, the last
//! pixel in scan order that lights the voxel.

use vstd::prelude::*;
use vstd::arithmetic::div_mod::lemma_fundamental_div_mod_converse;
use crate::codec::{answered, merged, projected_cell, BuildAction, BuildEvent, Codec};
use crate::geometry::{NUM_SCREENS, PANEL_PIXELS, W_PIXELS};
use crate::lut::{entry_in_range, in_table, LutEntry};

verus! {

/// The answer of the optics to `Cull`: whether the panel is out of reach at
/// the angle.
pub type Skip = spec_fn(u32, usize) -> bool;

/// The answer of the optics to `Project`: the raw cell that the pixel
/// lights.
pub type Light = spec_fn(LutEntry) -> Option<(u32, u32, u32)>;

/// The place of a pixel in the order of the scan: by angle, then panel,
/// then row, then column.
pub open spec fn pixel_position(e: LutEntry) -> int {
    (e.angle * NUM_SCREENS + e.panel) * PANEL_PIXELS + e.row * W_PIXELS + e.column
}

/// The pixel at a place of the scan.
pub open spec fn pixel_at(n: int) -> LutEntry {
    LutEntry {
        angle: (n / (NUM_SCREENS * PANEL_PIXELS)) as u32,
        panel: (n / (PANEL_PIXELS as int) % (NUM_SCREENS as int)) as usize,
        column: (n % (W_PIXELS as int)) as u32,
        row: (n / (W_PIXELS as int) % (W_PIXELS as int)) as u32,
    }
}

/// The place that the scan has reached when `action` is pending.
pub open spec fn action_position(action: BuildAction, last: u32) -> int {
    match action {
        BuildAction::Cull { angle, panel } => pixel_position(
            LutEntry { angle, panel, column: 0, row: 0 },
        ),
        BuildAction::Project { angle, panel, column, row } => pixel_position(
            LutEntry { angle, panel, column, row },
        ),
        BuildAction::Done => last * NUM_SCREENS * PANEL_PIXELS,
    }
}

/// What the optics answer to a question.
pub open spec fn answer(skip: Skip, light: Light, action: BuildAction) -> BuildEvent {
    match action {
        BuildAction::Cull { angle, panel } => BuildEvent::Culled(skip(angle, panel)),
        BuildAction::Project { angle, panel, column, row } => BuildEvent::Projected(
            light(LutEntry { angle, panel, column, row }),
        ),
        BuildAction::Done => BuildEvent::Culled(true),
    }
}

/// Whether the pixel lights voxel `(x, y, z)`: its panel is in reach and
/// the cell it lights folds to the voxel.
pub open spec fn lights(skip: Skip, light: Light, e: LutEntry, x: int, y: int, z: int) -> bool {
    !skip(e.angle, e.panel) && projected_cell(light(e)) == Some((x as u32, y as u32, z as u32))
}

/// The last pixel of `panel` that lights voxel `(x, y, z)` among the places
/// from `from` up to `to` of the scan.
pub open spec fn writer(
    skip: Skip,
    light: Light,
    from: int,
    to: int,
    panel: int,
    x: int,
    y: int,
    z: int,
) -> Option<LutEntry>
    decreases to - from,
{
    if to <= from {
        None
    } else if pixel_at(to - 1).panel == panel && lights(skip, light, pixel_at(to - 1), x, y, z) {
        Some(pixel_at(to - 1))
    } else {
        writer(skip, light, from, to - 1, panel, x, y, z)
    }
}

/// Whether the table of the codec holds what the scan of these optics has
/// written up to the pending question.
pub open spec fn follows(codec: Codec, skip: Skip, light: Light) -> bool {
    &&& codec.pending_action() matches BuildAction::Project { angle, panel, .. } ==> !skip(
        angle,
        panel,
    )
    &&& forall|panel: int, x: int, y: int, z: int|
        in_table(panel, x, y, z) ==> #[trigger] codec.table().entry(panel, x, y, z) == writer(
            skip,
            light,
            codec.first_angle() * NUM_SCREENS * PANEL_PIXELS,
            action_position(codec.pending_action(), codec.last_angle()),
            panel,
            x,
            y,
            z,
        )
}

/// The place of a pixel, digit by digit.
proof fn lemma_position(e: LutEntry)
    ensures
        pixel_position(e) == e.angle * 110592 + e.panel * 36864 + e.row * 192 + e.column,
{
    let n = pixel_position(e);
    assert(n == e.angle * 110592 + e.panel * 36864 + e.row * 192 + e.column) by (nonlinear_arith)
        requires
            n == (e.angle * NUM_SCREENS + e.panel) * PANEL_PIXELS + e.row * W_PIXELS + e.column,
            W_PIXELS == 192,
            PANEL_PIXELS == 36864,
            NUM_SCREENS == 3,
    ;
}

/// A pixel stands at its place of the scan.
pub proof fn lemma_pixel_at(e: LutEntry)
    requires
        entry_in_range(e),
    ensures
        0 <= pixel_position(e),
        pixel_at(pixel_position(e)) == e,
{
    let n = pixel_position(e);
    let line = (e.angle * NUM_SCREENS + e.panel) * W_PIXELS + e.row;
    assert(n == line * W_PIXELS + e.column) by (nonlinear_arith)
        requires
            n == (e.angle * NUM_SCREENS + e.panel) * PANEL_PIXELS + e.row * W_PIXELS + e.column,
            line == (e.angle * NUM_SCREENS + e.panel) * W_PIXELS + e.row,
            PANEL_PIXELS == W_PIXELS * W_PIXELS,
    ;
    assert(n == e.angle * (NUM_SCREENS * PANEL_PIXELS) + (e.panel * PANEL_PIXELS + e.row * W_PIXELS
        + e.column)) by (nonlinear_arith)
        requires
            n == (e.angle * NUM_SCREENS + e.panel) * PANEL_PIXELS + e.row * W_PIXELS + e.column,
    ;
    lemma_fundamental_div_mod_converse(n, W_PIXELS as int, line, e.column as int);
    lemma_fundamental_div_mod_converse(
        line,
        W_PIXELS as int,
        e.angle * NUM_SCREENS + e.panel,
        e.row as int,
    );
    lemma_fundamental_div_mod_converse(
        n,
        PANEL_PIXELS as int,
        e.angle * NUM_SCREENS + e.panel,
        e.row * W_PIXELS + e.column,
    );
    lemma_fundamental_div_mod_converse(
        e.angle * NUM_SCREENS + e.panel,
        NUM_SCREENS as int,
        e.angle as int,
        e.panel as int,
    );
    lemma_fundamental_div_mod_converse(
        n,
        NUM_SCREENS * PANEL_PIXELS,
        e.angle as int,
        e.panel * PANEL_PIXELS + e.row * W_PIXELS + e.column,
    );
}

/// The pixels of a panel that is out of reach write nothing.
proof fn lemma_writer_skips(
    skip: Skip,
    light: Light,
    from: int,
    angle: u32,
    board: usize,
    pixels: int,
    panel: int,
    x: int,
    y: int,
    z: int,
)
    requires
        angle < 0x1000_0000,
        board < NUM_SCREENS,
        skip(angle, board),
        0 <= pixels <= PANEL_PIXELS,
        from <= pixel_position(LutEntry { angle, panel: board, column: 0, row: 0 }),
    ensures
        writer(
            skip,
            light,
            from,
            pixel_position(LutEntry { angle, panel: board, column: 0, row: 0 }) + pixels,
            panel,
            x,
            y,
            z,
        ) == writer(
            skip,
            light,
            from,
            pixel_position(LutEntry { angle, panel: board, column: 0, row: 0 }),
            panel,
            x,
            y,
            z,
        ),
    decreases pixels,
{
    if pixels > 0 {
        lemma_writer_skips(skip, light, from, angle, board, pixels - 1, panel, x, y, z);
        let base = pixel_position(LutEntry { angle, panel: board, column: 0, row: 0 });
        let n = base + pixels - 1;
        lemma_fundamental_div_mod_converse(
            n,
            PANEL_PIXELS as int,
            angle * NUM_SCREENS + board,
            pixels - 1,
        );
        lemma_fundamental_div_mod_converse(
            angle * NUM_SCREENS + board,
            NUM_SCREENS as int,
            angle as int,
            board as int,
        );
        lemma_fundamental_div_mod_converse(
            n,
            NUM_SCREENS * PANEL_PIXELS,
            angle as int,
            board * PANEL_PIXELS + pixels - 1,
        );
        assert(pixel_at(n).angle == angle && pixel_at(n).panel == board);
    }
}

/// The entry that the scan leaves for a voxel is the last pixel of the
/// panel that lights it: it lights the voxel, and no pixel after it does.
/// Where the scan leaves none, no pixel lights the voxel.
pub proof fn lemma_writer_is_last(
    skip: Skip,
    light: Light,
    from: int,
    to: int,
    panel: int,
    x: int,
    y: int,
    z: int,
)
    requires
        from <= to,
    ensures
        match writer(skip, light, from, to, panel, x, y, z) {
            Some(e) => exists|n: int|
                {
                    &&& from <= n < to
                    &&& #[trigger] pixel_at(n) == e
                    &&& e.panel == panel
                    &&& lights(skip, light, e, x, y, z)
                    &&& forall|m: int|
                        n < m < to ==> !((#[trigger] pixel_at(m)).panel == panel && lights(
                            skip,
                            light,
                            pixel_at(m),
                            x,
                            y,
                            z,
                        ))
                },
            None => forall|m: int|
                from <= m < to ==> !((#[trigger] pixel_at(m)).panel == panel && lights(
                    skip,
                    light,
                    pixel_at(m),
                    x,
                    y,
                    z,
                )),
        },
    decreases to - from,
{
    if from < to {
        lemma_writer_is_last(skip, light, from, to - 1, panel, x, y, z);
        let newest = pixel_at(to - 1);
        if newest.panel == panel && lights(skip, light, newest, x, y, z) {
            assert(pixel_at(to - 1) == newest);
        } else {
            match writer(skip, light, from, to - 1, panel, x, y, z) {
                Some(e) => {
                    let n = choose|n: int|
                        {
                            &&& from <= n < to - 1
                            &&& #[trigger] pixel_at(n) == e
                            &&& e.panel == panel
                            &&& lights(skip, light, e, x, y, z)
                            &&& forall|m: int|
                                n < m < to - 1 ==> !((#[trigger] pixel_at(m)).panel == panel
                                    && lights(skip, light, pixel_at(m), x, y, z))
                        };
                    assert(pixel_at(n) == e);
                },
                None => {},
            }
        }
    }
}

/// A scan in two parts: what the second part writes stands, and what it
/// leaves open is what the first part wrote.
pub proof fn lemma_writer_split(
    skip: Skip,
    light: Light,
    from: int,
    mid: int,
    to: int,
    panel: int,
    x: int,
    y: int,
    z: int,
)
    requires
        from <= mid <= to,
    ensures
        writer(skip, light, from, to, panel, x, y, z) == match writer(
            skip,
            light,
            mid,
            to,
            panel,
            x,
            y,
            z,
        ) {
            Some(e) => Some(e),
            None => writer(skip, light, from, mid, panel, x, y, z),
        },
    decreases to - mid,
{
    if mid < to {
        lemma_writer_split(skip, light, from, mid, to - 1, panel, x, y, z);
    }
}

/// A codec that has not been asked anything follows every optics.
pub proof fn lemma_new_follows(codec: Codec, skip: Skip, light: Light)
    requires
        codec.wf(),
        codec.pending_action() == crate::codec::first_action(
            codec.first_angle(),
            codec.last_angle(),
        ),
        forall|panel: int, x: int, y: int, z: int|
            (#[trigger] codec.table().entry(panel, x, y, z)) is None,
    ensures
        follows(codec, skip, light),
{
}

/// Answering the pending question as the optics do keeps the table in step
/// with the scan.
pub proof fn lemma_step_follows(
    before: Codec,
    after: Codec,
    skip: Skip,
    light: Light,
)
    requires
        before.wf(),
        before.pending_action() != BuildAction::Done,
        follows(before, skip, light),
        answered(before, answer(skip, light, before.pending_action()), after),
    ensures
        follows(after, skip, light),
{
    let first = before.first_angle();
    let last = before.last_angle();
    let from = first * NUM_SCREENS * PANEL_PIXELS;
    let pos = action_position(before.pending_action(), last);
    let next = action_position(after.pending_action(), last);
    assert(from == first * 110592 && last * NUM_SCREENS * PANEL_PIXELS == last * 110592)
        by (nonlinear_arith)
        requires
            from == first * NUM_SCREENS * PANEL_PIXELS,
            PANEL_PIXELS == 36864,
            NUM_SCREENS == 3,
    ;
    match after.pending_action() {
        BuildAction::Cull { angle, panel } => {
            lemma_position(LutEntry { angle, panel, column: 0, row: 0 });
        },
        BuildAction::Project { angle, panel, column, row } => {
            lemma_position(LutEntry { angle, panel, column, row });
        },
        BuildAction::Done => {},
    }
    match before.pending_action() {
        BuildAction::Cull { angle, panel } => {
            lemma_position(LutEntry { angle, panel, column: 0, row: 0 });
            if skip(angle, panel) {
                assert(next == pos + PANEL_PIXELS);
                assert forall|p: int, x: int, y: int, z: int| in_table(p, x, y, z) implies writer(
                    skip,
                    light,
                    from,
                    next,
                    p,
                    x,
                    y,
                    z,
                ) == writer(skip, light, from, pos, p, x, y, z) by {
                    lemma_writer_skips(
                        skip,
                        light,
                        from,
                        angle,
                        panel,
                        PANEL_PIXELS as int,
                        p,
                        x,
                        y,
                        z,
                    );
                }
            } else {
                assert(next == pos);
            }
        },
        BuildAction::Project { angle, panel, column, row } => {
            let e = LutEntry { angle, panel, column, row };
            lemma_pixel_at(e);
            lemma_position(e);
            assert(next == pos + 1);
            assert(pixel_at(next - 1) == e);
        },
        BuildAction::Done => {},
    }
}

/// When every question has been answered as the optics do, the table holds
/// for each voxel and panel the last pixel of the whole scan that lights
/// the voxel.
pub proof fn lemma_built_table(codec: Codec, skip: Skip, light: Light)
    requires
        follows(codec, skip, light),
        codec.pending_action() == BuildAction::Done,
    ensures
        forall|panel: int, x: int, y: int, z: int|
            in_table(panel, x, y, z) ==> #[trigger] codec.table().entry(panel, x, y, z) == writer(
                skip,
                light,
                pixel_position(
                    LutEntry { angle: codec.first_angle(), panel: 0, column: 0, row: 0 },
                ),
                pixel_position(LutEntry { angle: codec.last_angle(), panel: 0, column: 0, row: 0 }),
                panel,
                x,
                y,
                z,
            ),
{
}

/// Building a range of angles in two parts and merging them gives what
/// building the whole range gives.
pub proof fn lemma_merge_follows(
    first: Codec,
    second: Codec,
    whole: Codec,
    skip: Skip,
    light: Light,
)
    requires
        first.wf(),
        second.wf(),
        follows(first, skip, light),
        follows(second, skip, light),
        merged(first, second, whole),
    ensures
        follows(whole, skip, light),
{
    let from = first.first_angle() * NUM_SCREENS * PANEL_PIXELS;
    let mid = first.last_angle() * NUM_SCREENS * PANEL_PIXELS;
    let to = second.last_angle() * NUM_SCREENS * PANEL_PIXELS;
    assert(from <= mid <= to) by (nonlinear_arith)
        requires
            from == first.first_angle() * NUM_SCREENS * PANEL_PIXELS,
            mid == first.last_angle() * NUM_SCREENS * PANEL_PIXELS,
            to == second.last_angle() * NUM_SCREENS * PANEL_PIXELS,
            first.first_angle() <= first.last_angle() <= second.last_angle(),
            PANEL_PIXELS == 36864,
            NUM_SCREENS == 3,
    ;
    assert forall|panel: int, x: int, y: int, z: int|
        in_table(panel, x, y, z) implies #[trigger] whole.table().entry(panel, x, y, z) == writer(
        skip,
        light,
        from,
        to,
        panel,
        x,
        y,
        z,
    ) by {
        lemma_writer_split(skip, light, from, mid, to, panel, x, y, z);
        assert(first.table().entry(panel, x, y, z) == writer(
            skip,
            light,
            from,
            mid,
            panel,
            x,
            y,
            z,
        ));
        assert(second.table().entry(panel, x, y, z) == writer(
            skip,
            light,
            mid,
            to,
            panel,
            x,
            y,
            z,
        ));
    }
}

/// A voxel that the scan has covered stays covered as the scan goes on:
/// more angles never lose a voxel.
pub proof fn lemma_coverage_grows(
    skip: Skip,
    light: Light,
    from: int,
    to: int,
    more: int,
    panel: int,
    x: int,
    y: int,
    z: int,
)
    requires
        from <= to <= more,
        writer(skip, light, from, to, panel, x, y, z) is Some,
    ensures
        writer(skip, light, from, more, panel, x, y, z) is Some,
{
    lemma_writer_split(skip, light, from, to, more, panel, x, y, z);
}

/// Construction is a function of the optics: two codecs that were built
/// for the same range from the same answers hold the same entries.
pub proof fn lemma_build_unique(a: Codec, b: Codec, skip: Skip, light: Light)
    requires
        follows(a, skip, light),
        follows(b, skip, light),
        a.pending_action() == BuildAction::Done,
        b.pending_action() == BuildAction::Done,
        a.first_angle() == b.first_angle(),
        a.last_angle() == b.last_angle(),
    ensures
        forall|panel: int, x: int, y: int, z: int|
            #[trigger] a.table().entry(panel, x, y, z) == b.table().entry(panel, x, y, z),
{
    assert forall|panel: int, x: int, y: int, z: int|
        #[trigger] a.table().entry(panel, x, y, z) == b.table().entry(panel, x, y, z) by {
        if in_table(panel, x, y, z) {
            assert(a.table().entry(panel, x, y, z) == writer(
                skip,
                light,
                a.first_angle() * NUM_SCREENS * PANEL_PIXELS,
                action_position(a.pending_action(), a.last_angle()),
                panel,
                x,
                y,
                z,
            ));
        }
    }
}

} // verus!
