//! Reading what the command line gives: parameters of a job, and spans of time.
use crate::text::{chars_of, find_from, find_text, parse_u64, parsed_u64, stands_at, text_is, views};
use crate::types::{DbJobRecreation, ParamView, PluginJob, ScraperParam};
use vstd::prelude::*;

verus! {

/// What `url::Url::parse` reads from a text: the scheme, and the URL in its normal form. `None` where
/// the text is no URL.
pub uninterp spec fn url_parsed(text: Seq<char>) -> Option<(Seq<char>, Seq<char>)>;

/// The view of a parsed URL.
pub open spec fn parsed_view(parsed: Option<(String, String)>) -> Option<(Seq<char>, Seq<char>)> {
    match parsed {
        Some(url) => Some((url.0@, url.1@)),
        None => None,
    }
}

/// `url::Url::parse` reads a URL; its scheme and its text are handed on as they are.
#[verifier::external_body]
fn parse_url(text: &str) -> (parsed: Option<(String, String)>)
    ensures
        parsed_view(parsed) == url_parsed(text@),
{
    match url::Url::parse(text) {
        Ok(url) => Some((url.scheme().to_string(), url.to_string())),
        Err(_) => None,
    }
}

/// The parameter that an item stands for: a URL where it is one of the web, else the item itself.
pub open spec fn param_of(item: Seq<char>, parsed: Option<(Seq<char>, Seq<char>)>) -> ParamView {
    match parsed {
        Some((scheme, url)) => if scheme == "http"@ || scheme == "https"@ {
            ParamView::Url(url)
        } else {
            ParamView::Normal(item)
        },
        None => ParamView::Normal(item),
    }
}

/// The parameter that an item stands for, given what it reads as.
pub fn scraper_param(item: &String, parsed: &Option<(String, String)>) -> (param: ScraperParam)
    ensures
        param@ == param_of(item@, parsed_view(*parsed)),
{
    if let Some((scheme, url)) = parsed {
        if text_is(scheme, "http") || text_is(scheme, "https") {
            return ScraperParam::Url(url.clone());
        }
    }
    ScraperParam::Normal(item.clone())
}

/// The pieces of a text between its spaces.
pub open spec fn pieces(text: Seq<char>) -> Seq<Seq<char>>
    decreases text.len(),
{
    if text.len() == 0 {
        seq![Seq::empty()]
    } else {
        let before = pieces(text.drop_last());
        if text.last() == ' ' {
            before.push(Seq::empty())
        } else {
            before.update(before.len() - 1, before.last().push(text.last()))
        }
    }
}

fn split_spaces(text: &str) -> (items: Vec<String>)
    ensures
        views(items@) == pieces(text@),
{
    let chars = chars_of(text);
    let mut items: Vec<String> = Vec::new();
    let mut current = String::new();
    let mut i: usize = 0;
    assert(chars@.take(0) =~= Seq::<char>::empty());
    assert(views(items@).push(current@) =~= pieces(chars@.take(0)));
    while i < chars.len()
        invariant
            i <= chars.len(),
            views(items@).push(current@) == pieces(chars@.take(i as int)),
        decreases chars.len() - i,
    {
        let c = chars[i];
        let ghost before = views(items@).push(current@);
        assert(chars@.take(i + 1).drop_last() =~= chars@.take(i as int));
        if c == ' ' {
            items.push(current);
            current = String::new();
            assert(views(items@) =~= before);
            assert(views(items@).push(current@) =~= before.push(Seq::empty()));
        } else {
            current.push(c);
            assert(views(items@).push(current@) =~= before.update(before.len() - 1, before.last().push(c)));
        }
        i += 1;
    }
    let ghost all = views(items@).push(current@);
    items.push(current);
    assert(views(items@) =~= all);
    assert(chars@.take(i as int) =~= chars@);
    items
}

/// The parameters that a query stands for.
pub open spec fn params_of(query: Seq<char>) -> Seq<ParamView> {
    Seq::new(pieces(query).len(), |i: int| param_of(pieces(query)[i], url_parsed(pieces(query)[i])))
}

/// The parameters that the words of a text stand for.
pub fn parse_string_to_scraperparam(input: &str) -> (params: Vec<ScraperParam>)
    ensures
        views(params@) == params_of(input@),
{
    let items = split_spaces(input);
    let mut params: Vec<ScraperParam> = Vec::new();
    let mut i: usize = 0;
    while i < items.len()
        invariant
            i <= items.len(),
            views(items@) == pieces(input@),
            params@.len() == i,
            forall|k: int|
                0 <= k < i ==> (#[trigger] params@[k])@ == param_of(pieces(input@)[k], url_parsed(pieces(input@)[k])),
        decreases items.len() - i,
    {
        let parsed = parse_url(items[i].as_str());
        assert(views(items@)[i as int] == items@[i as int]@);
        params.push(scraper_param(&items[i], &parsed));
        i += 1;
    }
    params
}

/// The units of time: their letters, and how many seconds they have.
pub open spec fn time_unit(n: int) -> (Seq<char>, nat) {
    if n == 0 {
        (seq!['y'], 31_557_600)
    } else if n == 1 {
        (seq!['m', 'o'], 2_629_800)
    } else if n == 2 {
        (seq!['w'], 604_800)
    } else if n == 3 {
        (seq!['d'], 86_400)
    } else if n == 4 {
        (seq!['h'], 3_600)
    } else if n == 5 {
        (seq!['m'], 60)
    } else {
        (seq!['s'], 1)
    }
}

/// The number that a text reads as; zero where it is none.
pub open spec fn number_or_zero(text: Seq<char>) -> nat {
    match parsed_u64(text) {
        Some(number) => number as nat,
        None => 0,
    }
}

/// The seconds that a text of numbers and units stands for, from the `n`th unit on.
///
/// A number stands before its unit. What follows a unit is read on, up to where the unit stands again.
/// A unit without a number before it ends the reading.
pub open spec fn seconds_from(text: Seq<char>, n: int) -> nat
    decreases 7 - n,
{
    if n < 0 || n >= 7 {
        0
    } else {
        let (unit, seconds) = time_unit(n);
        match find_from(text, unit, 0) {
            None => seconds_from(text, n + 1),
            Some(at) => if at == 0 {
                0
            } else {
                let start = at + unit.len();
                let end = match find_from(text, unit, start) {
                    Some(next) => next,
                    None => text.len() as int,
                };
                seconds * number_or_zero(text.take(at)) + seconds_from(text.subrange(start, end), n + 1)
            },
        }
    }
}

/// Whether a text says "now", in letters of either case.
pub open spec fn says_now(text: Seq<char>) -> bool {
    &&& text.len() == 3
    &&& text[0] == 'n' || text[0] == 'N'
    &&& text[1] == 'o' || text[1] == 'O'
    &&& text[2] == 'w' || text[2] == 'W'
}

/// The seconds that a text stands for.
pub open spec fn seconds_of(text: Seq<char>) -> nat {
    if says_now(text) {
        0
    } else {
        seconds_from(text, 0)
    }
}

fn unit_chars(n: usize) -> (unit: Vec<char>)
    requires
        n < 7,
    ensures
        unit@ == time_unit(n as int).0,
{
    let mut unit: Vec<char> = Vec::new();
    if n == 0 {
        unit.push('y');
    } else if n == 1 {
        unit.push('m');
        unit.push('o');
    } else if n == 2 {
        unit.push('w');
    } else if n == 3 {
        unit.push('d');
    } else if n == 4 {
        unit.push('h');
    } else if n == 5 {
        unit.push('m');
    } else {
        unit.push('s');
    }
    assert(unit@ =~= time_unit(n as int).0);
    unit
}

fn unit_seconds(n: usize) -> (seconds: u64)
    requires
        n < 7,
    ensures
        seconds == time_unit(n as int).1,
{
    if n == 0 {
        31_557_600
    } else if n == 1 {
        2_629_800
    } else if n == 2 {
        604_800
    } else if n == 3 {
        86_400
    } else if n == 4 {
        3_600
    } else if n == 5 {
        60
    } else {
        1
    }
}

fn part_of(chars: &Vec<char>, from: usize, to: usize) -> (part: Vec<char>)
    requires
        from <= to <= chars@.len(),
    ensures
        part@ == chars@.subrange(from as int, to as int),
{
    let mut part: Vec<char> = Vec::new();
    let mut i: usize = from;
    while i < to
        invariant
            from <= i <= to <= chars@.len(),
            part@ == chars@.subrange(from as int, i as int),
        decreases to - i,
    {
        part.push(chars[i]);
        i += 1;
        assert(part@ =~= chars@.subrange(from as int, i as int));
    }
    part
}

/// The seconds that a text of numbers and units stands for, such as `1d12h`; `None` where they are more
/// than fit in 64 bits.
pub fn checked_time_conv(inp: &str) -> (seconds: Option<u64>)
    ensures
        match seconds {
            Some(seconds) => seconds == seconds_of(inp@),
            None => seconds_of(inp@) > u64::MAX,
        },
{
    let mut text = chars_of(inp);
    if text.len() == 3 && (text[0] == 'n' || text[0] == 'N') && (text[1] == 'o' || text[1] == 'O') && (text[2] == 'w'
        || text[2] == 'W') {
        return Some(0);
    }
    let ghost whole = seconds_of(inp@);
    let mut total: u128 = 0;
    let mut n: usize = 0;
    let mut ended = false;
    while n < 7 && !ended
        invariant
            n <= 7,
            whole == seconds_of(inp@),
            total <= n * 31_557_600 * 0xffff_ffff_ffff_ffff,
            ended ==> whole == total,
            !ended ==> whole == total + seconds_from(text@, n as int),
        decreases 7 - n,
    {
        let unit = unit_chars(n);
        let seconds: u64 = unit_seconds(n);
        if let Some(at) = find_text(&text, &unit, 0) {
            if at == 0 {
                ended = true;
            } else {
                let head = part_of(&text, 0, at);
                assert(head@ =~= text@.take(at as int));
                let number: u64 = match parse_u64(&head) {
                    Some(number) => number,
                    None => 0,
                };
                assert(stands_at(text@, unit@, at as int));
                assert(at + unit.len() <= text.len());
                let start: usize = at + unit.len();
                let end: usize = match find_text(&text, &unit, start) {
                    Some(next) => next,
                    None => text.len(),
                };
                let rest = part_of(&text, start, end);
                assert(seconds_from(text@, n as int) == seconds as nat * number as nat + seconds_from(rest@, n + 1));
                assert(seconds * number <= 31_557_600 * 0xffff_ffff_ffff_ffff) by (nonlinear_arith)
                    requires
                        seconds <= 31_557_600,
                        number <= 0xffff_ffff_ffff_ffff,
                ;
                total = total + seconds as u128 * number as u128;
                text = rest;
            }
        }
        n += 1;
    }
    if total <= u64::MAX as u128 {
        Some(total as u64)
    } else {
        None
    }
}

/// The seconds that a text of numbers and units stands for, such as `1d12h`.
pub fn time_conv(inp: &str) -> (seconds: u64)
    requires
        seconds_of(inp@) <= u64::MAX,
    ensures
        seconds == seconds_of(inp@),
{
    checked_time_conv(inp).unwrap()
}

/// The priority of jobs that are added by hand.
pub const COMMAND_PRIORITY: u64 = 10;

/// The job that is added by hand: for a site, with a query, after some time, and made anew or not.
pub fn command_job(site: &String, query: &str, time: &str, recreation: Option<DbJobRecreation>, now: u64) -> (job:
    PluginJob)
    requires
        seconds_of(time@) <= u64::MAX,
    ensures
        job@.time == now,
        job@.reptime == seconds_of(time@),
        job@.priority == COMMAND_PRIORITY,
        job@.recreation == recreation,
        job@.site == site@,
        job@.param == params_of(query@),
        job@.user_data.len() == 0,
{
    PluginJob {
        time: now,
        reptime: time_conv(time),
        priority: COMMAND_PRIORITY,
        recreation,
        site: site.clone(),
        param: parse_string_to_scraperparam(query),
        user_data: Vec::new(),
    }
}

} // verus!
