//! Hardware backends for stick lighting.
//!
//! Applying settings to multicolor LEDs is a conversation with sysfs: every target's
//! attributes are opened and read first, and only when all of them are ready are
//! values written: every target is blanked, then its colour is written, then its
//! brightness. A failed write blanks every target as far as possible. An
//! `ApplyRun` holds the decisions of that conversation; whoever drives it performs
//! each `Request` against the files and hands the outcome back to `advance`.

use vstd::prelude::*;

use crate::attributes::{MaximumError, channel_order, maximum_reading, parse_maximum, parse_order};
use crate::colour::{
    Channel, Rgb, channel_value, gamma_value, law_gamma_level_exists, law_scale_is_nearest, scale,
    scaled,
};
use crate::config::{LightingConfig, settings_colour};
use crate::targets::{NameError, names_verdict, validate_names};
use crate::text::{
    decimal_text, decimal_value, is_white_space, law_decimal_text_reads_back,
    law_words_of_one_run, law_words_split_at_white_space, push_decimal, words,
};

verus! {

#[verifier::external_type_specification]
#[verifier::external_body]
pub struct ExPathBuf(std::path::PathBuf);

/// A sysfs attribute of a multicolor LED.
#[derive(Clone, Copy, Debug, PartialEq, Eq)]
pub enum Attribute {
    Brightness,
    MultiIndex,
    MaxBrightness,
    MultiIntensity,
}

/// Why lighting settings could not be applied.
#[derive(Debug, PartialEq, Eq)]
pub enum ApplyError {
    /// The device has no supported lighting; the reason says why.
    Unsupported(String),
    /// The declared target names are refused.
    Targets(NameError),
    /// An attribute of a target could not be opened for writing.
    Open { target: String, attribute: Attribute, cause: String },
    /// An attribute of a target could not be read.
    Read { target: String, attribute: Attribute, cause: String },
    /// The `multi_index` text of a target does not name red, green and blue.
    NotRgb { target: String, text: String },
    /// The `max_brightness` text of a target gives no usable top level.
    Maximum { target: String, text: String, error: MaximumError },
    /// An attribute of a target could not be written.
    Write { target: String, attribute: Attribute, cause: String },
}

/// Where a run of `apply` stands: the request it waits on.
#[derive(Clone, Copy, Debug, PartialEq, Eq)]
pub enum Step {
    /// Open the brightness of target `i` for writing, for blanking it.
    OpenBlank(usize),
    /// Read the `multi_index` of target `i`.
    ReadOrder(usize),
    /// Read the `max_brightness` of target `i`.
    ReadMaximum(usize),
    /// Open the `multi_intensity` of target `i` for writing.
    OpenIntensity(usize),
    /// Open the brightness of target `i` for writing, for its level.
    OpenBrightness(usize),
    /// Write `0` to target `i` through its blanking handle.
    WriteBlank(usize),
    /// Write the prepared colour of target `i` to its `multi_intensity`.
    WriteColour(usize),
    /// Write the prepared level of target `i` through its brightness handle.
    WriteBrightness(usize),
    /// Write `0` to the brightness of every target, ignoring failures.
    BlankAll,
    /// Nothing more: the run is over.
    Finish,
}

/// What the driver of a run is asked to do next; the texts are those to write.
#[derive(Debug, PartialEq, Eq)]
pub enum Request {
    OpenBlank(usize),
    ReadOrder(usize),
    ReadMaximum(usize),
    OpenIntensity(usize),
    OpenBrightness(usize),
    WriteBlank(usize),
    WriteColour(usize, String),
    WriteBrightness(usize, String),
    BlankAll,
    Finish,
}

/// The abstract state of a run of `apply`.
pub struct RunView {
    /// The declared targets, in order.
    pub targets: Seq<String>,
    /// Whether the LEDs are to be lit (else they are turned off).
    pub enabled: bool,
    /// The colour to show, where they are lit.
    pub rgb: Rgb,
    /// The brightness in percent, where they are lit.
    pub percent: u8,
    /// The request the run waits on.
    pub pending: Step,
    /// The channel order read for the target being prepared.
    pub order: Seq<Channel>,
    /// The top level read for the target being prepared.
    pub maximum: u32,
    /// The `multi_intensity` texts of the targets prepared so far.
    pub colours: Seq<Seq<char>>,
    /// The brightness texts of the targets prepared so far.
    pub levels: Seq<Seq<char>>,
    /// The error the run ends with, once there is one.
    pub failure: Option<ApplyError>,
}

/// The `multi_intensity` text for channel order `order`: the level of each channel,
/// in decimal, separated by spaces.
pub open spec fn colour_text(order: Seq<Channel>, rgb: Rgb, maximum: u32) -> Seq<char> {
    decimal_text(gamma_value(rgb.byte(order[0]), maximum) as nat) + seq![' '] + decimal_text(
        gamma_value(rgb.byte(order[1]), maximum) as nat,
    ) + seq![' '] + decimal_text(gamma_value(rgb.byte(order[2]), maximum) as nat)
}

/// The brightness text for `percent` on a scale whose top is `maximum`.
pub open spec fn level_text(percent: u8, maximum: u32) -> Seq<char> {
    decimal_text((#[verifier::truncate] (scaled(percent, maximum) as u32)) as nat)
}

/// The position of a step in the order in which a run takes them.
pub open spec fn step_rank(step: Step, count: nat) -> int {
    match step {
        Step::OpenBlank(i) => 5 * i,
        Step::ReadOrder(i) => 5 * i + 1,
        Step::ReadMaximum(i) => 5 * i + 2,
        Step::OpenIntensity(i) => 5 * i + 3,
        Step::OpenBrightness(i) => 5 * i + 4,
        Step::WriteBlank(i) => 5 * count + i,
        Step::WriteColour(i) => 6 * count + i,
        Step::WriteBrightness(i) => 7 * count + i,
        Step::BlankAll => 8 * count as int,
        Step::Finish => 8 * count as int + 1,
    }
}

/// Whether `step` opens or reads an attribute, before any write.
pub open spec fn is_preparing(step: Step) -> bool {
    ||| step is OpenBlank
    ||| step is ReadOrder
    ||| step is ReadMaximum
    ||| step is OpenIntensity
    ||| step is OpenBrightness
}

/// Whether `step` writes a value to one target.
pub open spec fn is_writing(step: Step) -> bool {
    ||| step is WriteBlank
    ||| step is WriteColour
    ||| step is WriteBrightness
}

impl RunView {
    /// The run that `apply` starts for `targets` and `config`.
    pub open spec fn initial(targets: Seq<String>, config: LightingConfig) -> RunView {
        RunView {
            targets,
            enabled: config.enabled,
            rgb: settings_colour(config.color@),
            percent: config.brightness,
            pending: Step::OpenBlank(0),
            order: Seq::empty(),
            maximum: 0,
            colours: Seq::empty(),
            levels: Seq::empty(),
            failure: None,
        }
    }

    /// The index of the target that `step` names, if it names one.
    pub open spec fn step_target(step: Step) -> Option<usize> {
        match step {
            Step::OpenBlank(i) => Some(i),
            Step::ReadOrder(i) => Some(i),
            Step::ReadMaximum(i) => Some(i),
            Step::OpenIntensity(i) => Some(i),
            Step::OpenBrightness(i) => Some(i),
            Step::WriteBlank(i) => Some(i),
            Step::WriteColour(i) => Some(i),
            Step::WriteBrightness(i) => Some(i),
            Step::BlankAll => None,
            Step::Finish => None,
        }
    }

    /// The number of targets prepared so far.
    pub open spec fn prepared(self) -> nat {
        self.colours.len()
    }

    /// The invariant of every run.
    pub open spec fn wf(self) -> bool {
        let n = self.targets.len();
        &&& 0 < n <= usize::MAX
        &&& names_verdict(self.targets) is Ok
        &&& self.colours.len() == self.levels.len()
        &&& (RunView::step_target(self.pending) matches Some(i) ==> i < n)
        &&& (self.failure is Some ==> (self.pending is BlankAll || self.pending is Finish))
        &&& (self.pending is BlankAll ==> self.enabled && self.failure is Some)
        &&& match self.pending {
            Step::OpenBlank(i) => self.prepared() == if self.enabled {
                i as nat
            } else {
                0
            },
            Step::ReadOrder(i) => self.enabled && self.prepared() == i,
            Step::ReadMaximum(i) => self.enabled && self.prepared() == i && self.order.len()
                == 3,
            Step::OpenIntensity(i) => self.enabled && self.prepared() == i && self.order.len()
                == 3,
            Step::OpenBrightness(i) => self.enabled && self.prepared() == i && self.order.len()
                == 3,
            Step::WriteBlank(_) => self.prepared() == if self.enabled {
                n
            } else {
                0
            },
            Step::WriteColour(_) => self.enabled && self.prepared() == n,
            Step::WriteBrightness(_) => self.enabled && self.prepared() == n,
            Step::BlankAll => true,
            Step::Finish => true,
        }
    }

    /// The run waiting on `step`, all else the same.
    pub open spec fn at(self, step: Step) -> RunView {
        RunView { pending: step, ..self }
    }

    /// The run that ends with `error`.
    pub open spec fn failed(self, error: ApplyError) -> RunView {
        RunView { pending: Step::Finish, failure: Some(error), ..self }
    }

    /// The run that blanks every target and then ends with `error`.
    pub open spec fn recovering(self, error: ApplyError) -> RunView {
        RunView { pending: Step::BlankAll, failure: Some(error), ..self }
    }

    /// The step after target `i` was prepared.
    pub open spec fn after_target(self, i: usize) -> Step {
        if i + 1 < self.targets.len() {
            Step::OpenBlank((i + 1) as usize)
        } else {
            Step::WriteBlank(0)
        }
    }

    /// The run after the pending request had `outcome`: `Ok` with the text read (any
    /// text for an open or a write), or `Err` with the cause of the failure.
    pub open spec fn next(self, outcome: Result<String, String>) -> RunView {
        let n = self.targets.len();
        match self.pending {
            Step::OpenBlank(i) => match outcome {
                Ok(_) => if self.enabled {
                    self.at(Step::ReadOrder(i))
                } else {
                    self.at(self.after_target(i))
                },
                Err(cause) => self.failed(
                    ApplyError::Open {
                        target: self.targets[i as int],
                        attribute: Attribute::Brightness,
                        cause,
                    },
                ),
            },
            Step::ReadOrder(i) => match outcome {
                Ok(text) => match channel_order(text@) {
                    Some(order) => RunView { pending: Step::ReadMaximum(i), order, ..self },
                    None => self.failed(ApplyError::NotRgb { target: self.targets[i as int], text }),
                },
                Err(cause) => self.failed(
                    ApplyError::Read {
                        target: self.targets[i as int],
                        attribute: Attribute::MultiIndex,
                        cause,
                    },
                ),
            },
            Step::ReadMaximum(i) => match outcome {
                Ok(text) => match maximum_reading(text@) {
                    Ok(maximum) => RunView { pending: Step::OpenIntensity(i), maximum, ..self },
                    Err(error) => self.failed(
                        ApplyError::Maximum { target: self.targets[i as int], text, error },
                    ),
                },
                Err(cause) => self.failed(
                    ApplyError::Read {
                        target: self.targets[i as int],
                        attribute: Attribute::MaxBrightness,
                        cause,
                    },
                ),
            },
            Step::OpenIntensity(i) => match outcome {
                Ok(_) => self.at(Step::OpenBrightness(i)),
                Err(cause) => self.failed(
                    ApplyError::Open {
                        target: self.targets[i as int],
                        attribute: Attribute::MultiIntensity,
                        cause,
                    },
                ),
            },
            Step::OpenBrightness(i) => match outcome {
                Ok(_) => RunView {
                    pending: self.after_target(i),
                    colours: self.colours.push(colour_text(self.order, self.rgb, self.maximum)),
                    levels: self.levels.push(level_text(self.percent, self.maximum)),
                    ..self
                },
                Err(cause) => self.failed(
                    ApplyError::Open {
                        target: self.targets[i as int],
                        attribute: Attribute::Brightness,
                        cause,
                    },
                ),
            },
            Step::WriteBlank(i) => match outcome {
                Ok(_) => if i + 1 < n {
                    self.at(Step::WriteBlank((i + 1) as usize))
                } else if self.enabled {
                    self.at(Step::WriteColour(0))
                } else {
                    self.at(Step::Finish)
                },
                Err(cause) => {
                    let error = ApplyError::Write {
                        target: self.targets[i as int],
                        attribute: Attribute::Brightness,
                        cause,
                    };
                    if self.enabled {
                        self.recovering(error)
                    } else {
                        self.failed(error)
                    }
                },
            },
            Step::WriteColour(i) => match outcome {
                Ok(_) => if i + 1 < n {
                    self.at(Step::WriteColour((i + 1) as usize))
                } else {
                    self.at(Step::WriteBrightness(0))
                },
                Err(cause) => self.recovering(
                    ApplyError::Write {
                        target: self.targets[i as int],
                        attribute: Attribute::MultiIntensity,
                        cause,
                    },
                ),
            },
            Step::WriteBrightness(i) => match outcome {
                Ok(_) => if i + 1 < n {
                    self.at(Step::WriteBrightness((i + 1) as usize))
                } else {
                    self.at(Step::Finish)
                },
                Err(cause) => self.recovering(
                    ApplyError::Write {
                        target: self.targets[i as int],
                        attribute: Attribute::Brightness,
                        cause,
                    },
                ),
            },
            Step::BlankAll => self.at(Step::Finish),
            Step::Finish => self,
        }
    }

    /// Whether `request` is what the run asks for.
    pub open spec fn asks(self, request: Request) -> bool {
        match self.pending {
            Step::OpenBlank(i) => request == Request::OpenBlank(i),
            Step::ReadOrder(i) => request == Request::ReadOrder(i),
            Step::ReadMaximum(i) => request == Request::ReadMaximum(i),
            Step::OpenIntensity(i) => request == Request::OpenIntensity(i),
            Step::OpenBrightness(i) => request == Request::OpenBrightness(i),
            Step::WriteBlank(i) => request == Request::WriteBlank(i),
            Step::WriteColour(i) => request matches Request::WriteColour(j, text) && j == i
                && text@ == self.colours[i as int],
            Step::WriteBrightness(i) => request matches Request::WriteBrightness(j, text) && j
                == i && text@ == self.levels[i as int],
            Step::BlankAll => request == Request::BlankAll,
            Step::Finish => request == Request::Finish,
        }
    }
}

/// The run after the requests it makes had `outcomes`, in order.
pub open spec fn replay(run: RunView, outcomes: Seq<Result<String, String>>) -> RunView
    decreases outcomes.len(),
{
    if outcomes.len() == 0 {
        run
    } else {
        replay(run, outcomes.drop_last()).next(outcomes.last())
    }
}

/// Applying the same settings again starts the same run, and a run that meets the
/// same outcomes makes the same requests and writes the same values: applying twice,
/// with the attributes reading the same, leaves the LEDs as the first time.
pub proof fn law_apply_is_repeatable(
    backend: MulticolorBackend,
    config: LightingConfig,
    first: Result<ApplyRun, ApplyError>,
    second: Result<ApplyRun, ApplyError>,
    outcomes: Seq<Result<String, String>>,
)
    requires
        backend.starts(config, first),
        backend.starts(config, second),
    ensures
        first is Ok <==> second is Ok,
        first is Err ==> first == second,
        first is Ok ==> replay(first->Ok_0@, outcomes) == replay(second->Ok_0@, outcomes),
{
}

/// Only what `multi_index` and `max_brightness` read shapes a run: the text handed
/// back for an open or a write makes no difference, so what the brightness and
/// `multi_intensity` attributes held before never changes what is written.
pub proof fn law_only_readings_matter(run: RunView, text1: String, text2: String)
    requires
        run.wf(),
        !(run.pending is ReadOrder),
        !(run.pending is ReadMaximum),
    ensures
        run.next(Ok(text1)) == run.next(Ok(text2)),
{
}

/// The `multi_intensity` text holds three words, one per position of the channel
/// order: each is written in decimal digits and reads as the level of the channel
/// at that position.
pub proof fn law_colour_text_follows_the_order(order: Seq<Channel>, rgb: Rgb, maximum: u32)
    requires
        order.len() == 3,
    ensures
        words(colour_text(order, rgb, maximum)).len() == 3,
        forall|k: int|
            0 <= k < 3 ==> decimal_value(#[trigger] words(colour_text(order, rgb, maximum))[k])
                == gamma_value(rgb.byte(order[k]), maximum),
        forall|k: int, i: int|
            0 <= k < 3 && 0 <= i < words(colour_text(order, rgb, maximum))[k].len() ==> '0'
                <= #[trigger] words(colour_text(order, rgb, maximum))[k][i] <= '9',
{
    let d: Seq<Seq<char>> = Seq::new(
        3,
        |j: int| decimal_text(gamma_value(rgb.byte(order[j]), maximum) as nat),
    );
    assert forall|j: int| 0 <= j < 3 implies words(#[trigger] d[j]) == seq![d[j]] && decimal_value(
        d[j],
    ) == gamma_value(rgb.byte(order[j]), maximum) && forall|i: int|
        0 <= i < d[j].len() ==> '0' <= #[trigger] d[j][i] <= '9' by {
        law_gamma_level_exists(rgb.byte(order[j]), maximum);
        law_decimal_text_reads_back(gamma_value(rgb.byte(order[j]), maximum) as nat);
        assert forall|i: int| 0 <= i < d[j].len() implies !is_white_space(#[trigger] d[j][i]) by {
            assert('0' <= d[j][i] <= '9');
        }
        law_words_of_one_run(d[j]);
    }
    let text = colour_text(order, rgb, maximum);
    assert(text =~= d[0] + seq![' '] + (d[1] + seq![' '] + d[2]));
    law_words_split_at_white_space(d[0], ' ', d[1] + seq![' '] + d[2]);
    law_words_split_at_white_space(d[1], ' ', d[2]);
    assert(words(text) =~= seq![d[0], d[1], d[2]]);
}

/// The brightness text is written in decimal digits and reads as the brightness
/// level; for a percentage up to 100 that is the percentage of the top rounded to
/// the nearest step, halves up.
pub proof fn law_level_text_reads_back(percent: u8, maximum: u32)
    ensures
        forall|i: int|
            0 <= i < level_text(percent, maximum).len() ==> '0' <= #[trigger] level_text(
                percent,
                maximum,
            )[i] <= '9',
        percent <= 100 ==> 100 * decimal_value(level_text(percent, maximum)) <= percent * maximum
            + 50 < 100 * decimal_value(level_text(percent, maximum)) + 100,
{
    let v = #[verifier::truncate] (scaled(percent, maximum) as u32);
    law_decimal_text_reads_back(v as nat);
    if percent <= 100 {
        law_scale_is_nearest(percent, maximum);
        assert(v == scaled(percent, maximum));
    }
}

/// What a target gets written comes from its own readings: where its `multi_index`
/// reads as an order and its `max_brightness` as a top, and both its attributes
/// open, the colour and brightness texts prepared for it are those of that order,
/// the run's colour and percentage, and that top.
pub proof fn law_values_come_from_the_readings(
    run: RunView,
    order_text: String,
    maximum_text: String,
    opened1: String,
    opened2: String,
)
    requires
        run.wf(),
        run.pending is ReadOrder,
        channel_order(order_text@) is Some,
        maximum_reading(maximum_text@) is Ok,
    ensures
        ({
            let i = RunView::step_target(run.pending)->0;
            let done = run.next(Ok(order_text)).next(Ok(maximum_text)).next(Ok(opened1)).next(
                Ok(opened2),
            );
            &&& done.prepared() == i + 1
            &&& done.colours[i as int] == colour_text(
                channel_order(order_text@)->0,
                run.rgb,
                maximum_reading(maximum_text@)->Ok_0,
            )
            &&& done.levels[i as int] == level_text(
                run.percent,
                maximum_reading(maximum_text@)->Ok_0,
            )
            &&& done.failure is None
        }),
{
}

/// A failure while preparing a target is reported with that target, the attribute
/// that failed, and the cause handed back.
pub proof fn law_preparation_failure_names_the_attribute(run: RunView, cause: String)
    requires
        run.wf(),
        is_preparing(run.pending),
    ensures
        ({
            let target = run.targets[RunView::step_target(run.pending)->0 as int];
            run.next(Err(cause)).failure == Some(
                match run.pending {
                    Step::ReadOrder(_) => ApplyError::Read {
                        target,
                        attribute: Attribute::MultiIndex,
                        cause,
                    },
                    Step::ReadMaximum(_) => ApplyError::Read {
                        target,
                        attribute: Attribute::MaxBrightness,
                        cause,
                    },
                    Step::OpenIntensity(_) => ApplyError::Open {
                        target,
                        attribute: Attribute::MultiIntensity,
                        cause,
                    },
                    _ => ApplyError::Open { target, attribute: Attribute::Brightness, cause },
                },
            )
        }),
{
}

/// Every run stays well formed, and each request it makes comes strictly later in
/// the order of a run: all targets are opened and read, in order, before any value
/// is written; then every target is blanked, then given its colour, then its
/// brightness; recovery and the end come last.
#[verifier::spinoff_prover]
pub proof fn law_runs_move_forward(run: RunView, outcome: Result<String, String>)
    requires
        run.wf(),
        !(run.pending is Finish),
    ensures
        run.next(outcome).wf(),
        step_rank(run.pending, run.targets.len()) < step_rank(
            run.next(outcome).pending,
            run.targets.len(),
        ),
{
    let next = run.next(outcome);
    let n = run.targets.len();
    match run.pending {
        Step::OpenBlank(i) => {
            assert(next.wf());
            assert(step_rank(run.pending, n) < step_rank(next.pending, n));
        },
        Step::ReadOrder(i) => {
            if outcome is Ok && channel_order(outcome->Ok_0@) is Some {
                assert(channel_order(outcome->Ok_0@)->0.len() == 3);
            }
            assert(next.wf());
            assert(step_rank(run.pending, n) < step_rank(next.pending, n));
        },
        Step::ReadMaximum(i) => {
            assert(next.wf());
            assert(step_rank(run.pending, n) < step_rank(next.pending, n));
        },
        Step::OpenIntensity(i) => {
            assert(next.wf());
            assert(step_rank(run.pending, n) < step_rank(next.pending, n));
        },
        Step::OpenBrightness(i) => {
            assert(next.wf());
            assert(step_rank(run.pending, n) < step_rank(next.pending, n));
        },
        Step::WriteBlank(i) => {
            assert(next.wf());
            assert(step_rank(run.pending, n) < step_rank(next.pending, n));
        },
        Step::WriteColour(i) => {
            assert(next.wf());
            assert(step_rank(run.pending, n) < step_rank(next.pending, n));
        },
        Step::WriteBrightness(i) => {
            assert(next.wf());
            assert(step_rank(run.pending, n) < step_rank(next.pending, n));
        },
        Step::BlankAll => {
            assert(next.wf());
            assert(step_rank(run.pending, n) < step_rank(next.pending, n));
        },
        Step::Finish => {},
    }
}

/// Every request of a run names one of the declared targets.
pub proof fn law_requests_name_declared_targets(run: RunView)
    requires
        run.wf(),
    ensures
        RunView::step_target(run.pending) matches Some(i) ==> i < run.targets.len(),
{
}

/// A failure while opening or reading ends the run at once, before anything was
/// written; success leads on to the next preparation, or, after the last target, to
/// the writes, with every target prepared where the LEDs are to be lit.
pub proof fn law_preparation_comes_before_writes(run: RunView, outcome: Result<String, String>)
    requires
        run.wf(),
        is_preparing(run.pending),
    ensures
        outcome is Err ==> run.next(outcome).pending is Finish && run.next(
            outcome,
        ).failure is Some,
        is_preparing(run.next(outcome).pending) || run.next(outcome).pending is Finish || (run.next(
            outcome,
        ).pending == Step::WriteBlank(0) && run.next(outcome).prepared() == if run.enabled {
            run.targets.len()
        } else {
            0
        }),
{
}

/// Where the LEDs are to be lit, a failed write blanks every target before the run
/// ends with that failure.
pub proof fn law_failed_write_blanks_targets(
    run: RunView,
    cause: String,
    after: Result<String, String>,
)
    requires
        run.wf(),
        run.enabled,
        is_writing(run.pending),
    ensures
        run.next(Err(cause)).pending is BlankAll,
        run.next(Err(cause)).failure == Some(
            ApplyError::Write {
                target: run.targets[RunView::step_target(run.pending)->0 as int],
                attribute: if run.pending is WriteColour {
                    Attribute::MultiIntensity
                } else {
                    Attribute::Brightness
                },
                cause,
            },
        ),
        run.next(Err(cause)).next(after).pending is Finish,
        run.next(Err(cause)).next(after).failure == run.next(Err(cause)).failure,
{
}

/// No target is skipped: each successful open of a target's last attribute, and each
/// successful write, moves on to the very next target, whether the LEDs are lit or
/// turned off; after the last target, blanking leads to the colours (or to the end
/// when turning off), colours to the brightness, and brightness to the end.
pub proof fn law_every_target_in_turn(run: RunView, text: String)
    requires
        run.wf(),
    ensures
        run.pending matches Step::WriteBlank(i) ==> run.next(Ok(text)).pending == (if i + 1
            < run.targets.len() {
            Step::WriteBlank((i + 1) as usize)
        } else if run.enabled {
            Step::WriteColour(0)
        } else {
            Step::Finish
        }),
        run.pending matches Step::WriteColour(i) ==> run.next(Ok(text)).pending == (if i + 1
            < run.targets.len() {
            Step::WriteColour((i + 1) as usize)
        } else {
            Step::WriteBrightness(0)
        }),
        run.pending matches Step::WriteBrightness(i) ==> run.next(Ok(text)).pending == (if i
            + 1 < run.targets.len() {
            Step::WriteBrightness((i + 1) as usize)
        } else {
            Step::Finish
        }),
        run.pending matches Step::OpenBlank(i) ==> run.next(Ok(text)).pending == (if run.enabled {
            Step::ReadOrder(i)
        } else if i + 1 < run.targets.len() {
            Step::OpenBlank((i + 1) as usize)
        } else {
            Step::WriteBlank(0)
        }),
        run.pending matches Step::OpenIntensity(i) ==> run.next(Ok(text)).pending
            == Step::OpenBrightness(i),
        run.pending matches Step::OpenBrightness(i) ==> run.next(Ok(text)).pending == (if i + 1
            < run.targets.len() {
            Step::OpenBlank((i + 1) as usize)
        } else {
            Step::WriteBlank(0)
        }),
        run.pending matches Step::OpenBrightness(i) ==> run.next(Ok(text)).prepared() == i + 1,
{
}

/// Turning the LEDs off only opens and writes their brightness.
pub proof fn law_off_touches_only_brightness(run: RunView)
    requires
        run.wf(),
        !run.enabled,
    ensures
        run.pending is OpenBlank || run.pending is WriteBlank || run.pending is Finish,
{
}

/// A run succeeds only through the successful write of the last value: the last
/// brightness where the LEDs are lit, the last blanking where they are turned off.
pub proof fn law_success_needs_every_write(run: RunView, outcome: Result<String, String>)
    requires
        run.wf(),
        !(run.pending is Finish),
        run.next(outcome).pending is Finish,
        run.next(outcome).failure is None,
    ensures
        outcome is Ok,
        run.enabled ==> run.pending == Step::WriteBrightness((run.targets.len() - 1) as usize),
        !run.enabled ==> run.pending == Step::WriteBlank((run.targets.len() - 1) as usize),
{
}

/// A run of `apply` on multicolor LEDs.
pub struct ApplyRun {
    targets: Vec<String>,
    enabled: bool,
    rgb: Rgb,
    percent: u8,
    pending: Step,
    order: Vec<Channel>,
    maximum: u32,
    colours: Vec<String>,
    levels: Vec<String>,
    failure: Option<ApplyError>,
}

impl View for ApplyRun {
    type V = RunView;

    closed spec fn view(&self) -> RunView {
        RunView {
            targets: self.targets@,
            enabled: self.enabled,
            rgb: self.rgb,
            percent: self.percent,
            pending: self.pending,
            order: self.order@,
            maximum: self.maximum,
            colours: self.colours@.map_values(|text: String| text@),
            levels: self.levels@.map_values(|text: String| text@),
            failure: self.failure,
        }
    }
}

impl ApplyRun {
    #[verifier::type_invariant]
    closed spec fn is_wf(self) -> bool {
        self@.wf()
    }

    /// What the run asks for next.
    pub fn request(&self) -> (request: Request)
        ensures
            self@.wf(),
            self@.asks(request),
    {
        proof {
            use_type_invariant(self);
        }
        match self.pending {
            Step::OpenBlank(i) => Request::OpenBlank(i),
            Step::ReadOrder(i) => Request::ReadOrder(i),
            Step::ReadMaximum(i) => Request::ReadMaximum(i),
            Step::OpenIntensity(i) => Request::OpenIntensity(i),
            Step::OpenBrightness(i) => Request::OpenBrightness(i),
            Step::WriteBlank(i) => Request::WriteBlank(i),
            Step::WriteColour(i) => Request::WriteColour(i, self.colours[i].clone()),
            Step::WriteBrightness(i) => Request::WriteBrightness(i, self.levels[i].clone()),
            Step::BlankAll => Request::BlankAll,
            Step::Finish => Request::Finish,
        }
    }

    /// The name of target `i`.
    pub fn target(&self, i: usize) -> (name: Option<&String>)
        ensures
            i < self@.targets.len() ==> name == Some(&self@.targets[i as int]),
            i >= self@.targets.len() ==> name is None,
    {
        if i < self.targets.len() {
            Some(&self.targets[i])
        } else {
            None
        }
    }

    /// The names of all targets.
    pub fn targets(&self) -> (names: &Vec<String>)
        ensures
            names@ == self@.targets,
    {
        &self.targets
    }

    /// The run after the pending request had `outcome`.
    pub fn advance(self, outcome: Result<String, String>) -> (next: ApplyRun)
        ensures
            self@.wf(),
            next@.wf(),
            next@ == self@.next(outcome),
    {
        proof {
            use_type_invariant(&self);
        }
        let ghost before = self@;
        let ApplyRun {
            targets,
            enabled,
            rgb,
            percent,
            pending,
            order,
            maximum,
            mut colours,
            mut levels,
            failure,
        } = self;
        let n: usize = targets.len();
        let mut next_order: Vec<Channel> = order;
        let mut next_maximum: u32 = maximum;
        let mut next_failure: Option<ApplyError> = failure;
        let next_pending: Step = match pending {
            Step::OpenBlank(i) => match outcome {
                Ok(_) => if enabled {
                    Step::ReadOrder(i)
                } else if i + 1 < n {
                    Step::OpenBlank(i + 1)
                } else {
                    Step::WriteBlank(0)
                },
                Err(cause) => {
                    next_failure = Some(
                        ApplyError::Open {
                            target: targets[i].clone(),
                            attribute: Attribute::Brightness,
                            cause,
                        },
                    );
                    Step::Finish
                },
            },
            Step::ReadOrder(i) => match outcome {
                Ok(text) => match parse_order(text.as_str()) {
                    Some(channels) => {
                        next_order = channels;
                        Step::ReadMaximum(i)
                    },
                    None => {
                        next_failure = Some(
                            ApplyError::NotRgb { target: targets[i].clone(), text },
                        );
                        Step::Finish
                    },
                },
                Err(cause) => {
                    next_failure = Some(
                        ApplyError::Read {
                            target: targets[i].clone(),
                            attribute: Attribute::MultiIndex,
                            cause,
                        },
                    );
                    Step::Finish
                },
            },
            Step::ReadMaximum(i) => match outcome {
                Ok(text) => match parse_maximum(text.as_str()) {
                    Ok(top) => {
                        next_maximum = top;
                        Step::OpenIntensity(i)
                    },
                    Err(error) => {
                        next_failure = Some(
                            ApplyError::Maximum { target: targets[i].clone(), text, error },
                        );
                        Step::Finish
                    },
                },
                Err(cause) => {
                    next_failure = Some(
                        ApplyError::Read {
                            target: targets[i].clone(),
                            attribute: Attribute::MaxBrightness,
                            cause,
                        },
                    );
                    Step::Finish
                },
            },
            Step::OpenIntensity(i) => match outcome {
                Ok(_) => Step::OpenBrightness(i),
                Err(cause) => {
                    next_failure = Some(
                        ApplyError::Open {
                            target: targets[i].clone(),
                            attribute: Attribute::MultiIntensity,
                            cause,
                        },
                    );
                    Step::Finish
                },
            },
            Step::OpenBrightness(i) => match outcome {
                Ok(_) => {
                    let colour: String = intensity_text(&next_order, rgb, next_maximum);
                    let mut level: String = String::new();
                    push_decimal(&mut level, scale(percent, next_maximum));
                    proof {
                        assert(level@ =~= level_text(percent, next_maximum));
                    }
                    colours.push(colour);
                    levels.push(level);
                    if i + 1 < n {
                        Step::OpenBlank(i + 1)
                    } else {
                        Step::WriteBlank(0)
                    }
                },
                Err(cause) => {
                    next_failure = Some(
                        ApplyError::Open {
                            target: targets[i].clone(),
                            attribute: Attribute::Brightness,
                            cause,
                        },
                    );
                    Step::Finish
                },
            },
            Step::WriteBlank(i) => match outcome {
                Ok(_) => if i + 1 < n {
                    Step::WriteBlank(i + 1)
                } else if enabled {
                    Step::WriteColour(0)
                } else {
                    Step::Finish
                },
                Err(cause) => {
                    next_failure = Some(
                        ApplyError::Write {
                            target: targets[i].clone(),
                            attribute: Attribute::Brightness,
                            cause,
                        },
                    );
                    if enabled {
                        Step::BlankAll
                    } else {
                        Step::Finish
                    }
                },
            },
            Step::WriteColour(i) => match outcome {
                Ok(_) => if i + 1 < n {
                    Step::WriteColour(i + 1)
                } else {
                    Step::WriteBrightness(0)
                },
                Err(cause) => {
                    next_failure = Some(
                        ApplyError::Write {
                            target: targets[i].clone(),
                            attribute: Attribute::MultiIntensity,
                            cause,
                        },
                    );
                    Step::BlankAll
                },
            },
            Step::WriteBrightness(i) => match outcome {
                Ok(_) => if i + 1 < n {
                    Step::WriteBrightness(i + 1)
                } else {
                    Step::Finish
                },
                Err(cause) => {
                    next_failure = Some(
                        ApplyError::Write {
                            target: targets[i].clone(),
                            attribute: Attribute::Brightness,
                            cause,
                        },
                    );
                    Step::BlankAll
                },
            },
            Step::BlankAll => Step::Finish,
            Step::Finish => Step::Finish,
        };
        let next: ApplyRun = ApplyRun {
            targets,
            enabled,
            rgb,
            percent,
            pending: next_pending,
            order: next_order,
            maximum: next_maximum,
            colours,
            levels,
            failure: next_failure,
        };
        assert(next@.colours =~= before.next(outcome).colours);
        assert(next@.levels =~= before.next(outcome).levels);
        proof {
            use_type_invariant(&next);
        }
        next
    }

    /// How the run ended: the error it met, if any.
    pub fn outcome(self) -> (result: Result<(), ApplyError>)
        requires
            self@.pending is Finish,
        ensures
            match self@.failure {
                None => result is Ok,
                Some(error) => result == Err::<(), ApplyError>(error),
            },
    {
        match self.failure {
            None => Ok(()),
            Some(error) => Err(error),
        }
    }
}

/// The `multi_intensity` text for channel order `order`.
fn intensity_text(order: &Vec<Channel>, rgb: Rgb, maximum: u32) -> (text: String)
    requires
        order@.len() == 3,
    ensures
        text@ == colour_text(order@, rgb, maximum),
{
    let mut text: String = String::new();
    push_decimal(&mut text, channel_value(order[0], rgb, maximum));
    text.append(" ");
    push_decimal(&mut text, channel_value(order[1], rgb, maximum));
    text.append(" ");
    push_decimal(&mut text, channel_value(order[2], rgb, maximum));
    proof {
        reveal_strlit(" ");
    }
    assert(text@ =~= colour_text(order@, rgb, maximum));
    text
}

/// A lighting backend: multicolor LEDs, or a device without supported lighting.
pub enum LightingBackend {
    Multicolor(MulticolorBackend),
    Unsupported(String),
}

impl LightingBackend {
    /// Starts applying `config`: a run on multicolor LEDs, or the refusal of a device
    /// without supported lighting, with its reason.
    pub fn apply(&self, config: &LightingConfig) -> (started: Result<ApplyRun, ApplyError>)
        ensures
            match self {
                LightingBackend::Multicolor(backend) => backend.starts(*config, started),
                LightingBackend::Unsupported(reason) => started == Err::<ApplyRun, ApplyError>(
                    ApplyError::Unsupported(*reason),
                ),
            },
    {
        match self {
            LightingBackend::Multicolor(backend) => backend.apply(config),
            LightingBackend::Unsupported(reason) => Err(ApplyError::Unsupported(reason.clone())),
        }
    }

    /// Why the device has no supported lighting, if it has none.
    pub fn unsupported_reason(&self) -> (reason: Option<&str>)
        ensures
            match self {
                LightingBackend::Multicolor(_) => reason is None,
                LightingBackend::Unsupported(why) => reason matches Some(text) && text@ == why@,
            },
    {
        match self {
            LightingBackend::Multicolor(_) => None,
            LightingBackend::Unsupported(reason) => Some(reason.as_str()),
        }
    }
}

/// Multicolor LEDs under a sysfs root, by their declared names.
pub struct MulticolorBackend {
    root: std::path::PathBuf,
    targets: Vec<String>,
}

impl MulticolorBackend {
    /// The backend for the LEDs named `targets` under `root`.
    pub fn new(root: std::path::PathBuf, targets: Vec<String>) -> (backend: Self)
        ensures
            backend.root_path() == root,
            backend.target_names() == targets@,
    {
        Self { root, targets }
    }

    pub closed spec fn root_path(&self) -> std::path::PathBuf {
        self.root
    }

    pub closed spec fn target_names(&self) -> Seq<String> {
        self.targets@
    }

    /// The directory under which the LEDs are found.
    pub fn root(&self) -> (root: &std::path::PathBuf)
        ensures
            *root == self.root_path(),
    {
        &self.root
    }

    /// Whether `started` is what applying `config` starts: the target names are
    /// checked; then the run begins at the first target.
    pub open spec fn starts(&self, config: LightingConfig, started: Result<ApplyRun, ApplyError>) -> bool {
        match names_verdict(self.target_names()) {
            Err(error) => started == Err::<ApplyRun, ApplyError>(ApplyError::Targets(error)),
            Ok(_) => started matches Ok(run) && run@ == RunView::initial(
                self.target_names(),
                config,
            ) && run@.wf(),
        }
    }

    /// Starts applying `config` to the LEDs: the target names are checked, and the
    /// run begins at the first target with the colour of `config`.
    pub fn apply(&self, config: &LightingConfig) -> (started: Result<ApplyRun, ApplyError>)
        ensures
            self.starts(*config, started),
    {
        if let Err(error) = validate_names(&self.targets) {
            return Err(ApplyError::Targets(error));
        }
        let rgb: Rgb = config.rgb();
        let targets: Vec<String> = self.targets.clone();
        proof {
            assert(targets@ =~= self.targets@);
        }
        let run: ApplyRun = ApplyRun {
            targets,
            enabled: config.enabled,
            rgb,
            percent: config.brightness,
            pending: Step::OpenBlank(0),
            order: Vec::new(),
            maximum: 0,
            colours: Vec::new(),
            levels: Vec::new(),
            failure: None,
        };
        assert(run@.colours =~= Seq::<Seq<char>>::empty());
        assert(run@.levels =~= Seq::<Seq<char>>::empty());
        proof {
            use_type_invariant(&run);
        }
        Ok(run)
    }
}

} // verus!
