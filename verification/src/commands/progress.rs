//! How the course of a translation is shown.
use crate::agent::progress::TranslationProgress;
use crate::terminal::{escape_text, shown};
use crate::text::{decimal, join2, push_decimal, to_decimal};
use std::time::Duration;
use vstd::prelude::*;

verus! {

/// The whole milliseconds of a duration.
pub uninterp spec fn whole_millis(duration: Duration) -> nat;

/// A duration in seconds with one decimal place.
pub uninterp spec fn seconds_form(duration: Duration) -> Seq<char>;

/// `Duration::as_millis` gives the whole milliseconds of a duration, which are referred to by
/// name.
#[verifier::external_body]
fn millis_of(duration: Duration) -> (millis: u128)
    ensures
        millis == whole_millis(duration),
{
    duration.as_millis()
}

/// `std` formats the seconds that `Duration::as_secs_f64` gives with one decimal place; the text
/// is a function of the duration and is referred to by name.
#[verifier::external_body]
fn seconds_of(duration: Duration) -> (text: String)
    ensures
        text@ == seconds_form(duration),
{
    format!("{:.1}", duration.as_secs_f64())
}

/// A duration as it is shown, given its whole milliseconds and its seconds as text.
pub open spec fn duration_text(millis: nat, seconds: Seq<char>) -> Seq<char> {
    if millis < 1000 {
        decimal(millis) + " 毫秒"@
    } else {
        seconds + " 秒"@
    }
}

/// A duration as it is shown, given its whole milliseconds and its seconds as text.
pub fn show_duration(millis: u128, seconds: &str) -> (text: String)
    ensures
        text@ == duration_text(millis as nat, seconds@),
{
    if millis < 1000 {
        let number = to_decimal(millis as u64);
        join2(number.as_str(), " 毫秒")
    } else {
        join2(seconds, " 秒")
    }
}

/// A duration as it is shown: in milliseconds below one second, else in seconds.
pub fn format_duration(duration: Duration) -> (text: String)
    ensures
        text@ == duration_text(whole_millis(duration), seconds_form(duration)),
{
    let seconds = seconds_of(duration);
    show_duration(millis_of(duration), seconds.as_str())
}

/// The number of a batch and the number of batches.
pub open spec fn batch_label(locale: Seq<char>, index: usize, total: usize) -> Seq<char> {
    locale + ": ["@ + decimal(index as nat) + "/"@ + decimal(total as nat) + "] "@
}

/// The number of an attempt and the number of attempts.
pub open spec fn attempt_label(attempt: usize, max: usize) -> Seq<char> {
    "第 "@ + decimal(attempt as nat) + "/"@ + decimal(max as nat) + " 次请求"@
}

/// A duration as it is shown.
pub open spec fn shown_duration(duration: Duration) -> Seq<char> {
    duration_text(whole_millis(duration), seconds_form(duration))
}

/// An event as it is shown.
pub open spec fn progress_line(progress: TranslationProgress<'_>) -> Seq<char> {
    match progress {
        TranslationProgress::Started { locale, total_units, total_batches } => locale@ + ": 待翻译 "@
            + decimal(total_units as nat) + " 个字段，共 "@ + decimal(total_batches as nat) + " 批"@,
        TranslationProgress::BatchAttemptStarted {
            locale,
            batch_index,
            total_batches,
            attempt,
            max_attempts,
            unit_count,
        } => batch_label(locale@, batch_index, total_batches) + attempt_label(attempt, max_attempts)
            + "，包含 "@ + decimal(unit_count as nat) + " 个字段"@,
        TranslationProgress::BatchAttemptFailed {
            locale,
            batch_index,
            total_batches,
            attempt,
            max_attempts,
            elapsed,
            reason,
            retry_delay,
        } => batch_label(locale@, batch_index, total_batches) + attempt_label(attempt, max_attempts)
            + "失败（"@ + shown_duration(elapsed) + "），"@ + (match retry_delay {
            Some(delay) => shown_duration(delay) + " 后重试："@,
            None => "不再重试："@,
        }) + shown(reason@),
        TranslationProgress::BatchCompleted {
            locale,
            batch_index,
            total_batches,
            completed_units,
            total_units,
            elapsed,
        } => batch_label(locale@, batch_index, total_batches) + "已完成 "@ + decimal(
            completed_units as nat,
        ) + "/"@ + decimal(total_units as nat) + " 个字段，本批耗时 "@ + shown_duration(elapsed),
    }
}

fn push_batch(text: &mut String, locale: &str, index: usize, total: usize)
    requires
        old(text)@.len() == 0,
    ensures
        final(text)@ == batch_label(locale@, index, total),
{
    text.append(locale);
    text.append(": [");
    push_decimal(text, index);
    text.append("/");
    push_decimal(text, total);
    text.append("] ");
    assert(text@ =~= batch_label(locale@, index, total));
}

fn push_attempt(text: &mut String, attempt: usize, max: usize)
    ensures
        final(text)@ == old(text)@ + attempt_label(attempt, max),
{
    let ghost before = text@;
    text.append("第 ");
    push_decimal(text, attempt);
    text.append("/");
    push_decimal(text, max);
    text.append(" 次请求");
    assert(text@ =~= before + attempt_label(attempt, max));
}

/// An event as it is shown.
pub fn show_progress(progress: &TranslationProgress<'_>) -> (line: String)
    ensures
        line@ == progress_line(*progress),
{
    let mut line = String::new();
    assert(line@ =~= Seq::<char>::empty());
    match progress {
        TranslationProgress::Started { locale, total_units, total_batches } => {
            line.append(*locale);
            line.append(": 待翻译 ");
            push_decimal(&mut line, *total_units);
            line.append(" 个字段，共 ");
            push_decimal(&mut line, *total_batches);
            line.append(" 批");
        },
        TranslationProgress::BatchAttemptStarted {
            locale,
            batch_index,
            total_batches,
            attempt,
            max_attempts,
            unit_count,
        } => {
            push_batch(&mut line, *locale, *batch_index, *total_batches);
            push_attempt(&mut line, *attempt, *max_attempts);
            line.append("，包含 ");
            push_decimal(&mut line, *unit_count);
            line.append(" 个字段");
        },
        TranslationProgress::BatchAttemptFailed {
            locale,
            batch_index,
            total_batches,
            attempt,
            max_attempts,
            elapsed,
            reason,
            retry_delay,
        } => {
            let spent = format_duration(*elapsed);
            let details = escape_text(*reason);
            push_batch(&mut line, *locale, *batch_index, *total_batches);
            push_attempt(&mut line, *attempt, *max_attempts);
            line.append("失败（");
            line.append(spent.as_str());
            line.append("），");
            let ghost head = line@;
            match retry_delay {
                Some(delay) => {
                    let pause = format_duration(*delay);
                    line.append(pause.as_str());
                    line.append(" 后重试：");
                    assert(line@ =~= head + (shown_duration(*delay) + " 后重试："@));
                },
                None => {
                    line.append("不再重试：");
                },
            }
            line.append(details.as_str());
        },
        TranslationProgress::BatchCompleted {
            locale,
            batch_index,
            total_batches,
            completed_units,
            total_units,
            elapsed,
        } => {
            let spent = format_duration(*elapsed);
            push_batch(&mut line, *locale, *batch_index, *total_batches);
            line.append("已完成 ");
            push_decimal(&mut line, *completed_units);
            line.append("/");
            push_decimal(&mut line, *total_units);
            line.append(" 个字段，本批耗时 ");
            line.append(spent.as_str());
        },
    }
    assert(line@ =~= progress_line(*progress));
    line
}

} // verus!
