use vstd::prelude::*;

use crate::calendar::{
    digit_char, month_last_day, month_text, parse_month, parsed_month, week_range,
    week_start_number, Date,
};
use crate::config::{conflict_message, masked, mask_secret, non_empty_text, update_field, Config};
use crate::error::WakalyzeError;
use crate::format::digit_str;
use crate::text::{opt_string, text_views};

verus! {

/// What the `config` command is asked to do.
#[derive(Debug)]
pub enum ConfigAction {
    /// Print where the settings file is.
    Path,
    /// Show the stored settings.
    Show,
    /// Change the stored settings.
    Update(ConfigSetArgs),
}

/// The changes asked of `config set`: a new value or the removal of each setting.
#[derive(Debug)]
pub struct ConfigSetArgs {
    pub key: Option<String>,
    pub user: Option<String>,
    pub base_url: Option<String>,
    pub clear_key: bool,
    pub clear_user: bool,
    pub clear_base_url: bool,
}

/// What the caller does to carry out a `config` command.
#[derive(Debug)]
pub enum ConfigEffect {
    /// Print the settings file's path.
    PrintPath,
    /// Print the path, then these lines.
    Show(Vec<String>),
    /// Write these settings to the settings file.
    Save(Config),
}

/// A stored value for display.
pub open spec fn shown(v: Option<String>) -> Seq<char> {
    match v {
        Some(s) => s@,
        None => "(unset)"@,
    }
}

/// A stored key for display, masked.
pub open spec fn shown_key(v: Option<String>) -> Seq<char> {
    match v {
        Some(s) => masked(s@),
        None => "(unset)"@,
    }
}

/// The lines that `config show` prints after the path.
pub open spec fn show_lines(c: Config) -> Seq<Seq<char>> {
    seq!["user: "@ + shown(c.user), "base_url: "@ + shown(c.base_url), "key: "@ + shown_key(c.key)]
}

/// A setting after a change: removed when cleared, set to the trimmed value when one is
/// given (unset when that is blank), else as it was.
pub open spec fn changed(old: Option<String>, value: Option<String>, clear: bool) -> Option<
    Seq<char>,
> {
    if clear {
        None
    } else {
        match value {
            Some(v) => non_empty_text(v@),
            None => opt_string(old),
        }
    }
}

pub open spec fn conflicts(value: Option<String>, clear: bool) -> bool {
    clear && value is Some
}

pub open spec fn given(value: Option<String>, clear: bool) -> bool {
    clear || value is Some
}

pub open spec fn is_conflict(r: Result<ConfigEffect, WakalyzeError>, label: Seq<char>) -> bool {
    match r {
        Err(WakalyzeError::ConflictingFlags(m)) => m@ == conflict_message(label),
        _ => false,
    }
}

fn as_opt_str(o: &Option<String>) -> (r: Option<&str>)
    ensures
        r is Some <==> o is Some,
        r matches Some(s) ==> o matches Some(t) && s@ == t@,
{
    match o {
        Some(s) => Some(s.as_str()),
        None => None,
    }
}

fn shown_text(v: &Option<String>) -> (r: String)
    ensures
        r@ == shown(*v),
{
    match v {
        Some(s) => s.clone(),
        None => String::from_str("(unset)"),
    }
}

fn prefixed(prefix: &str, text: String) -> (r: String)
    ensures
        r@ == prefix@ + text@,
{
    let p = String::from_str(prefix);
    p.concat(text.as_str())
}

/// The decision of a `config` command on the current settings: the path to print, the
/// lines to show, or the settings to save. A value given together with its removal is an
/// error, and so is a `set` that gives nothing.
pub fn handle_config(action: &ConfigAction, current: &Config) -> (r: Result<ConfigEffect, WakalyzeError>)
    ensures
        *action is Path ==> r matches Ok(ConfigEffect::PrintPath),
        *action is Show ==> match r {
            Ok(ConfigEffect::Show(lines)) => text_views(lines@) == show_lines(*current),
            _ => false,
        },
        action matches ConfigAction::Update(a) ==> {
            if conflicts(a.key, a.clear_key) {
                is_conflict(r, "key"@)
            } else if conflicts(a.user, a.clear_user) {
                is_conflict(r, "user"@)
            } else if conflicts(a.base_url, a.clear_base_url) {
                is_conflict(r, "base-url"@)
            } else if !given(a.key, a.clear_key) && !given(a.user, a.clear_user) && !given(
                a.base_url,
                a.clear_base_url,
            ) {
                r == Err::<ConfigEffect, WakalyzeError>(WakalyzeError::NothingToUpdate)
            } else {
                match r {
                    Ok(ConfigEffect::Save(c)) => {
                        &&& opt_string(c.key) == changed(current.key, a.key, a.clear_key)
                        &&& opt_string(c.user) == changed(current.user, a.user, a.clear_user)
                        &&& opt_string(c.base_url) == changed(
                            current.base_url,
                            a.base_url,
                            a.clear_base_url,
                        )
                    },
                    _ => false,
                }
            }
        },
{
    match action {
        ConfigAction::Path => Ok(ConfigEffect::PrintPath),
        ConfigAction::Show => {
            let mut lines: Vec<String> = Vec::new();
            lines.push(prefixed("user: ", shown_text(&current.user)));
            lines.push(prefixed("base_url: ", shown_text(&current.base_url)));
            let key = match &current.key {
                Some(k) => mask_secret(k.as_str()),
                None => String::from_str("(unset)"),
            };
            lines.push(prefixed("key: ", key));
            assert(text_views(lines@) =~= show_lines(*current));
            Ok(ConfigEffect::Show(lines))
        },
        ConfigAction::Update(args) => {
            let mut key = current.key.clone();
            let mut user = current.user.clone();
            let mut base_url = current.base_url.clone();
            proof {
                reveal_strlit("key");
                reveal_strlit("user");
                reveal_strlit("base-url");
            }
            let key_given = match update_field(&mut key, as_opt_str(&args.key), args.clear_key, "key") {
                Ok(b) => b,
                Err(e) => {
                    return Err(e);
                },
            };
            let user_given = match update_field(
                &mut user,
                as_opt_str(&args.user),
                args.clear_user,
                "user",
            ) {
                Ok(b) => b,
                Err(e) => {
                    return Err(e);
                },
            };
            let base_url_given = match update_field(
                &mut base_url,
                as_opt_str(&args.base_url),
                args.clear_base_url,
                "base-url",
            ) {
                Ok(b) => b,
                Err(e) => {
                    return Err(e);
                },
            };
            if !key_given && !user_given && !base_url_given {
                return Err(WakalyzeError::NothingToUpdate);
            }
            Ok(ConfigEffect::Save(Config { key, user, base_url }))
        },
    }
}


/// The month of `d` written `YYYY/MM`.
pub fn month_label(d: Date) -> (r: String)
    requires
        0 <= d.year <= 9999,
        1 <= d.month <= 12,
    ensures
        r@ == month_text(d.year as int, d.month as int),
{
    let y = d.year as u32;
    let m = d.month;
    let mut out = String::new();
    out.append(digit_str(y / 1000));
    out.append(digit_str((y / 100) % 10));
    out.append(digit_str((y / 10) % 10));
    out.append(digit_str(y % 10));
    proof {
        reveal_strlit("/");
    }
    out.append("/");
    out.append(digit_str(m / 10));
    out.append(digit_str(m % 10));
    assert(out@ =~= month_text(d.year as int, d.month as int));
    out
}

/// The label of a week of a month: `YYYY/MM week N`.
pub open spec fn week_label(first: Date, week: int) -> Seq<char> {
    month_text(first.year as int, first.month as int) + " week "@ + seq![digit_char(week)]
}

/// The days to analyse and the report's label: the whole month written `YYYY/MM`, or its
/// week `week` (1 to 6).
pub fn analysis_range(month: &str, week: Option<u32>) -> (r: Result<(Date, Date, String), WakalyzeError>)
    ensures
        match parsed_month(month@) {
            Err(e) => r == Err::<(Date, Date, String), WakalyzeError>(e),
            Ok(first) => match week {
                None => match r {
                    Ok((s, e, l)) => s == first && e == first.month_end() && l@ == month_text(
                        first.year as int,
                        first.month as int,
                    ),
                    Err(_) => false,
                },
                Some(w) => if !(1 <= w <= 6) {
                    r == Err::<(Date, Date, String), WakalyzeError>(WakalyzeError::InvalidWeek)
                } else if week_start_number(first, w as int) > first.month_end().number() {
                    r == Err::<(Date, Date, String), WakalyzeError>(
                        WakalyzeError::WeekOutOfRange(w),
                    )
                } else {
                    match r {
                        Ok((s, e, l)) => {
                            &&& s.wf()
                            &&& e.wf()
                            &&& s.number() == week_start_number(first, w as int)
                            &&& e.number() == s.number() + 6
                            &&& l@ == week_label(first, w as int)
                        },
                        Err(_) => false,
                    }
                },
            },
        },
{
    let first = match parse_month(month) {
        Ok(d) => d,
        Err(e) => {
            return Err(e);
        },
    };
    let label = month_label(first);
    match week {
        None => {
            let last = month_last_day(first);
            Ok((first, last, label))
        },
        Some(w) => {
            match week_range(first, w) {
                Ok((s, e)) => {
                    let mut l = label;
                    proof {
                        reveal_strlit(" week ");
                    }
                    l.append(" week ");
                    l.append(digit_str(w));
                    Ok((s, e, l))
                },
                Err(err) => Err(err),
            }
        },
    }
}

/// A gap threshold in seconds, which must be positive.
pub fn validate_max_gap(max_gap_seconds: i64) -> (r: Result<i64, WakalyzeError>)
    ensures
        max_gap_seconds > 0 ==> r == Ok::<i64, WakalyzeError>(max_gap_seconds),
        max_gap_seconds <= 0 ==> r == Err::<i64, WakalyzeError>(WakalyzeError::InvalidMaxGap),
{
    if max_gap_seconds <= 0 {
        Err(WakalyzeError::InvalidMaxGap)
    } else {
        Ok(max_gap_seconds)
    }
}

} // verus!
