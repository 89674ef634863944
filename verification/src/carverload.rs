//! Reading a world's carvers from its documents.

use vstd::prelude::*;
use crate::arith::{answers, low, Ask, ONE_32};
use crate::carvers26::{CanyonCarver, CanyonShape, Carver, CarverStage, CaveCarver, FloatProvider, HeightProvider, IntProvider, is_between, is_deep_sink, is_sink, is_slope};
use crate::df26::{wrap, wrapped};
use crate::json::{lemma_trees, tree, tree_in, trees, Json, LoadError, Tree};
use crate::load::{full_name, list_in, single_in, text_in, Reading};
use crate::loader::{full_id, get_single, get_text, texts, Loader};
use crate::text::{find_name, position_of, same_text};

verus! {

/// What an anchor is told to name.
pub open spec fn names_height<A: Fn(&Json) -> Option<i32>>(a: A, t: Tree, r: Option<i32>) -> bool {
    exists|j: Json| tree(j) == t && #[trigger] call_ensures(a, (&j,), r)
}

/// The height that an anchor names, if it is one.
pub open spec fn anchored<A: Fn(&Json) -> Option<i32>>(a: A, t: Tree) -> Option<i32> {
    choose|r: Option<i32>| names_height(a, t, r)
}

/// Every document is an anchor or none, and always the same.
pub open spec fn anchors<A: Fn(&Json) -> Option<i32>>(a: A) -> bool {
    &&& forall|j: Json| #[trigger] call_requires(a, (&j,))
    &&& forall|j: Json, r: Option<i32>| #[trigger] call_ensures(a, (&j,), r) ==> r == anchored(a, tree(j))
}

/// The anchor of a field.
pub open spec fn anchor_in<A: Fn(&Json) -> Option<i32>>(a: A, t: Tree, key: Seq<char>) -> Result<i32, LoadError> {
    match t.get(key) {
        None => Err(LoadError::MissingField),
        Some(v) => match anchored(a, v) {
            None => Err(LoadError::NotAnchor),
            Some(y) => Ok(y),
        },
    }
}

pub(crate) fn read_anchor<A: Fn(&Json) -> Option<i32>>(a: &A, t: &Json, key: &str) -> (r: Result<i32, LoadError>)
    requires
        anchors(*a),
    ensures
        r == anchor_in(*a, tree(*t), key@),
{
    match t.get(key) {
        None => Err(LoadError::MissingField),
        Some(v) => match a(v) {
            None => Err(LoadError::NotAnchor),
            Some(y) => Ok(y),
        },
    }
}

/// The integer of a field, wrapped to 32 bits.
pub open spec fn short_in(t: Tree, key: Seq<char>) -> Option<i32> {
    match t.get(key) {
        None => None,
        Some(v) => match v.as_integer() {
            None => None,
            Some(n) => Some(wrapped(n as int)),
        },
    }
}

pub(crate) fn get_short(t: &Json, key: &str) -> (r: Option<i32>)
    ensures
        r == short_in(tree(*t), key@),
{
    match t.get(key) {
        None => None,
        Some(v) => match v.as_integer() {
            None => None,
            Some(n) => Some(wrap(n as i128)),
        },
    }
}

/// The full name of a document's type.
pub open spec fn kind_in(t: Tree) -> Option<Seq<char>> {
    match text_in(t, "type"@) {
        None => None,
        Some(k) => Some(full_name(k)),
    }
}

pub(crate) fn read_kind(t: &Json) -> (r: Option<String>)
    ensures
        r is Some <==> kind_in(tree(*t)) is Some,
        r matches Some(k) ==> kind_in(tree(*t)) == Some(k@),
{
    match get_text(t, "type") {
        None => None,
        Some(k) => Some(full_id(k)),
    }
}

/// A provider of singles: a number, or one by its type.
pub open spec fn float_provider_in<F: Fn(Ask) -> u64>(f: F, t: Tree) -> Result<FloatProvider, LoadError> {
    match t.as_double() {
        Some(n) => Ok(FloatProvider::Constant(low(f, Ask::Narrow(n)))),
        None => match kind_in(t) {
            None => Err(LoadError::MissingType),
            Some(k) => if k == "minecraft:constant"@ {
                match single_in(f, t, "value"@) {
                    Some(v) => Ok(FloatProvider::Constant(v)),
                    None => Err(LoadError::NotNumber),
                }
            } else if k == "minecraft:uniform"@ {
                match (single_in(f, t, "min_inclusive"@), single_in(f, t, "max_exclusive"@)) {
                    (Some(min), Some(max)) => Ok(FloatProvider::Uniform { min, max }),
                    _ => Err(LoadError::NotNumber),
                }
            } else if k == "minecraft:trapezoid"@ {
                match (single_in(f, t, "min"@), single_in(f, t, "max"@), single_in(f, t, "plateau"@)) {
                    (Some(min), Some(max), Some(plateau)) => Ok(FloatProvider::Trapezoid { min, max, plateau }),
                    _ => Err(LoadError::NotNumber),
                }
            } else {
                Err(LoadError::Unsupported)
            },
        },
    }
}

fn load_float_provider<F: Fn(Ask) -> u64>(f: &F, t: &Json) -> (r: Result<FloatProvider, LoadError>)
    requires
        answers(*f),
    ensures
        r == float_provider_in(*f, tree(*t)),
{
    if let Some(n) = t.as_double() {
        return Ok(FloatProvider::Constant(f(Ask::Narrow(n)) as u32));
    }
    let kind = match read_kind(t) {
        None => return Err(LoadError::MissingType),
        Some(k) => k,
    };
    let k: &str = kind.as_str();
    if same_text(k, "minecraft:constant") {
        match get_single(f, t, "value") {
            Some(v) => Ok(FloatProvider::Constant(v)),
            None => Err(LoadError::NotNumber),
        }
    } else if same_text(k, "minecraft:uniform") {
        match (get_single(f, t, "min_inclusive"), get_single(f, t, "max_exclusive")) {
            (Some(min), Some(max)) => Ok(FloatProvider::Uniform { min, max }),
            _ => Err(LoadError::NotNumber),
        }
    } else if same_text(k, "minecraft:trapezoid") {
        match (get_single(f, t, "min"), get_single(f, t, "max"), get_single(f, t, "plateau")) {
            (Some(min), Some(max), Some(plateau)) => Ok(FloatProvider::Trapezoid { min, max, plateau }),
            _ => Err(LoadError::NotNumber),
        }
    } else {
        Err(LoadError::Unsupported)
    }
}

/// A provider of integers: a number, or one by its type.
pub open spec fn int_provider_in(t: Tree) -> Result<IntProvider, LoadError> {
    match t.as_integer() {
        Some(n) => Ok(IntProvider::Constant(wrapped(n as int))),
        None => match kind_in(t) {
            None => Err(LoadError::MissingType),
            Some(k) => if k == "minecraft:constant"@ {
                match short_in(t, "value"@) {
                    Some(v) => Ok(IntProvider::Constant(v)),
                    None => Err(LoadError::NotInteger),
                }
            } else if k == "minecraft:uniform"@ || k == "minecraft:biased_to_bottom"@ || k == "minecraft:very_biased_to_bottom"@ {
                match (short_in(t, "min_inclusive"@), short_in(t, "max_inclusive"@)) {
                    (Some(min), Some(max)) => if k == "minecraft:uniform"@ {
                        Ok(IntProvider::Uniform { min, max })
                    } else if k == "minecraft:biased_to_bottom"@ {
                        Ok(IntProvider::BiasedToBottom { min, max })
                    } else {
                        Ok(IntProvider::VeryBiasedToBottom { min, max })
                    },
                    _ => Err(LoadError::NotInteger),
                }
            } else {
                Err(LoadError::Unsupported)
            },
        },
    }
}

fn load_int_provider(t: &Json) -> (r: Result<IntProvider, LoadError>)
    ensures
        r == int_provider_in(tree(*t)),
{
    if let Some(n) = t.as_integer() {
        return Ok(IntProvider::Constant(wrap(n as i128)));
    }
    let kind = match read_kind(t) {
        None => return Err(LoadError::MissingType),
        Some(k) => k,
    };
    let k: &str = kind.as_str();
    if same_text(k, "minecraft:constant") {
        return match get_short(t, "value") {
            Some(v) => Ok(IntProvider::Constant(v)),
            None => Err(LoadError::NotInteger),
        };
    }
    let (uniform, biased, very): (bool, bool, bool) = (
        same_text(k, "minecraft:uniform"),
        same_text(k, "minecraft:biased_to_bottom"),
        same_text(k, "minecraft:very_biased_to_bottom"),
    );
    if !(uniform || biased || very) {
        return Err(LoadError::Unsupported);
    }
    match (get_short(t, "min_inclusive"), get_short(t, "max_inclusive")) {
        (Some(min), Some(max)) => if uniform {
            Ok(IntProvider::Uniform { min, max })
        } else if biased {
            Ok(IntProvider::BiasedToBottom { min, max })
        } else {
            Ok(IntProvider::VeryBiasedToBottom { min, max })
        },
        _ => Err(LoadError::NotInteger),
    }
}

/// The integer of a field, or one that stands in for it.
pub open spec fn short_or(t: Tree, key: Seq<char>, or: i32) -> i32 {
    match short_in(t, key) {
        Some(n) => n,
        None => or,
    }
}

pub(crate) fn get_short_or(t: &Json, key: &str, or: i32) -> (r: i32)
    ensures
        r == short_or(tree(*t), key@, or),
{
    match get_short(t, key) {
        Some(n) => n,
        None => or,
    }
}

/// A provider of heights: an anchor, or one by its type.
pub open spec fn height_provider_in<A: Fn(&Json) -> Option<i32>>(a: A, t: Tree) -> Result<HeightProvider, LoadError> {
    match kind_in(t) {
        None => match anchored(a, t) {
            None => Err(LoadError::NotAnchor),
            Some(y) => Ok(HeightProvider::Constant(y)),
        },
        Some(k) => if k == "minecraft:constant"@ {
            match anchor_in(a, t, "value"@) {
                Err(e) => Err(e),
                Ok(y) => Ok(HeightProvider::Constant(y)),
            }
        } else if k == "minecraft:uniform"@ || k == "minecraft:trapezoid"@ || k == "minecraft:biased_to_bottom"@ || k
            == "minecraft:very_biased_to_bottom"@ {
            match anchor_in(a, t, "min_inclusive"@) {
                Err(e) => Err(e),
                Ok(min) => match anchor_in(a, t, "max_inclusive"@) {
                    Err(e) => Err(e),
                    Ok(max) => if k == "minecraft:uniform"@ {
                        Ok(HeightProvider::Uniform { min, max })
                    } else if k == "minecraft:trapezoid"@ {
                        Ok(HeightProvider::Trapezoid { min, max, plateau: short_or(t, "plateau"@, 0) })
                    } else if k == "minecraft:biased_to_bottom"@ {
                        Ok(HeightProvider::BiasedToBottom { min, max, inner: short_or(t, "inner"@, 1) })
                    } else {
                        Ok(HeightProvider::VeryBiasedToBottom { min, max, inner: short_or(t, "inner"@, 1) })
                    },
                },
            }
        } else {
            Err(LoadError::Unsupported)
        },
    }
}

fn load_height_provider<A: Fn(&Json) -> Option<i32>>(a: &A, t: &Json) -> (r: Result<HeightProvider, LoadError>)
    requires
        anchors(*a),
    ensures
        r == height_provider_in(*a, tree(*t)),
{
    let kind = match read_kind(t) {
        None => return match a(t) {
            None => Err(LoadError::NotAnchor),
            Some(y) => Ok(HeightProvider::Constant(y)),
        },
        Some(k) => k,
    };
    let k: &str = kind.as_str();
    if same_text(k, "minecraft:constant") {
        return match read_anchor(a, t, "value") {
            Err(e) => Err(e),
            Ok(y) => Ok(HeightProvider::Constant(y)),
        };
    }
    let (uniform, trapezoid, biased, very): (bool, bool, bool, bool) = (
        same_text(k, "minecraft:uniform"),
        same_text(k, "minecraft:trapezoid"),
        same_text(k, "minecraft:biased_to_bottom"),
        same_text(k, "minecraft:very_biased_to_bottom"),
    );
    if !(uniform || trapezoid || biased || very) {
        return Err(LoadError::Unsupported);
    }
    let min: i32 = match read_anchor(a, t, "min_inclusive") {
        Err(e) => return Err(e),
        Ok(y) => y,
    };
    let max: i32 = match read_anchor(a, t, "max_inclusive") {
        Err(e) => return Err(e),
        Ok(y) => y,
    };
    if uniform {
        Ok(HeightProvider::Uniform { min, max })
    } else if trapezoid {
        Ok(HeightProvider::Trapezoid { min, max, plateau: get_short_or(t, "plateau", 0) })
    } else if biased {
        Ok(HeightProvider::BiasedToBottom { min, max, inner: get_short_or(t, "inner", 1) })
    } else {
        Ok(HeightProvider::VeryBiasedToBottom { min, max, inner: get_short_or(t, "inner", 1) })
    }
}

/// The provider of singles of a field.
pub open spec fn float_field<F: Fn(Ask) -> u64>(f: F, t: Tree, key: Seq<char>) -> Result<FloatProvider, LoadError> {
    match t.get(key) {
        None => Err(LoadError::MissingField),
        Some(v) => float_provider_in(f, v),
    }
}

fn read_float_field<F: Fn(Ask) -> u64>(f: &F, t: &Json, key: &str) -> (r: Result<FloatProvider, LoadError>)
    requires
        answers(*f),
    ensures
        r == float_field(*f, tree(*t), key@),
{
    match t.get(key) {
        None => Err(LoadError::MissingField),
        Some(v) => load_float_provider(f, v),
    }
}

/// The first reason among four providers that one cannot be read.
pub open spec fn all_read(a: Result<FloatProvider, LoadError>, rest: Option<LoadError>) -> Option<LoadError> {
    match a {
        Err(e) => Some(e),
        Ok(_) => rest,
    }
}

/// A carver of caves.
pub open spec fn cave_in<F: Fn(Ask) -> u64>(f: F, t: Tree, probability: u32, y: HeightProvider) -> Result<CaveCarver, LoadError> {
    let count = match t.get("count"@) {
        None => Err(LoadError::MissingField),
        Some(v) => int_provider_in(v),
    };
    let thickness = float_field(f, t, "thickness"@);
    let room = float_field(f, t, "room_vertical_radius_multiplier"@);
    let wide = float_field(f, t, "horizontal_radius_multiplier"@);
    let tall = float_field(f, t, "vertical_radius_multiplier"@);
    let start = match t.get("start_vertical_radius_multiplier"@) {
        None => Ok(FloatProvider::Constant(ONE_32)),
        Some(v) => float_provider_in(f, v),
    };
    let floor = float_field(f, t, "floor_level"@);
    match count {
        Err(e) => Err(e),
        Ok(c) => match all_read(
            thickness,
            all_read(room, all_read(wide, all_read(tall, all_read(start, all_read(floor, None))))),
        ) {
            Some(e) => Err(e),
            None => Ok(CaveCarver {
                probability,
                y,
                count: c,
                thickness: thickness->Ok_0,
                weird_thickness_bias: flag_in(t, "weird_thickness_bias"@),
                room_vertical_radius_multiplier: room->Ok_0,
                horizontal_radius_multiplier: wide->Ok_0,
                vertical_radius_multiplier: tall->Ok_0,
                start_vertical_radius_multiplier: start->Ok_0,
                floor_level: floor->Ok_0,
            }),
        },
    }
}

/// Whether a field says yes.
pub open spec fn flag_in(t: Tree, key: Seq<char>) -> bool {
    match t.get(key) {
        None => false,
        Some(v) => v.as_bool() == Some(true),
    }
}

fn get_flag(t: &Json, key: &str) -> (r: bool)
    ensures
        r == flag_in(tree(*t), key@),
{
    match t.get(key) {
        None => false,
        Some(v) => match v.as_bool() {
            Some(b) => b,
            None => false,
        },
    }
}

fn load_cave<F: Fn(Ask) -> u64>(f: &F, t: &Json, probability: u32, y: HeightProvider) -> (r: Result<CaveCarver, LoadError>)
    requires
        answers(*f),
    ensures
        r == cave_in(*f, tree(*t), probability, y),
{
    let count = match t.get("count") {
        None => return Err(LoadError::MissingField),
        Some(v) => match load_int_provider(v) {
            Err(e) => return Err(e),
            Ok(c) => c,
        },
    };
    let thickness = match read_float_field(f, t, "thickness") {
        Err(e) => return Err(e),
        Ok(p) => p,
    };
    let room_vertical_radius_multiplier = match read_float_field(f, t, "room_vertical_radius_multiplier") {
        Err(e) => return Err(e),
        Ok(p) => p,
    };
    let horizontal_radius_multiplier = match read_float_field(f, t, "horizontal_radius_multiplier") {
        Err(e) => return Err(e),
        Ok(p) => p,
    };
    let vertical_radius_multiplier = match read_float_field(f, t, "vertical_radius_multiplier") {
        Err(e) => return Err(e),
        Ok(p) => p,
    };
    let start_vertical_radius_multiplier = match t.get("start_vertical_radius_multiplier") {
        None => FloatProvider::Constant(ONE_32),
        Some(v) => match load_float_provider(f, v) {
            Err(e) => return Err(e),
            Ok(p) => p,
        },
    };
    let floor_level = match read_float_field(f, t, "floor_level") {
        Err(e) => return Err(e),
        Ok(p) => p,
    };
    Ok(CaveCarver {
        probability,
        y,
        count,
        thickness,
        weird_thickness_bias: get_flag(t, "weird_thickness_bias"),
        room_vertical_radius_multiplier,
        horizontal_radius_multiplier,
        vertical_radius_multiplier,
        start_vertical_radius_multiplier,
        floor_level,
    })
}

/// The number of a shape's field.
pub open spec fn shape_number<F: Fn(Ask) -> u64>(f: F, t: Tree, key: Seq<char>) -> Result<u32, LoadError> {
    match t.get(key) {
        None => Err(LoadError::MissingField),
        Some(v) => match v.as_double() {
            None => Err(LoadError::NotNumber),
            Some(n) => Ok(low(f, Ask::Narrow(n))),
        },
    }
}

fn read_shape_number<F: Fn(Ask) -> u64>(f: &F, t: &Json, key: &str) -> (r: Result<u32, LoadError>)
    requires
        answers(*f),
    ensures
        r == shape_number(*f, tree(*t), key@),
{
    match t.get(key) {
        None => Err(LoadError::MissingField),
        Some(v) => match v.as_double() {
            None => Err(LoadError::NotNumber),
            Some(n) => Ok(f(Ask::Narrow(n)) as u32),
        },
    }
}

/// A canyon's shape.
pub open spec fn shape_in<F: Fn(Ask) -> u64>(f: F, t: Tree) -> Result<CanyonShape, LoadError> {
    match float_field(f, t, "distance_factor"@) {
        Err(e) => Err(e),
        Ok(distance_factor) => match float_field(f, t, "thickness"@) {
            Err(e) => Err(e),
            Ok(thickness) => match t.get("width_smoothness"@) {
                None => Err(LoadError::MissingField),
                Some(w) => match w.as_integer() {
                    None => Err(LoadError::NotInteger),
                    Some(n) => match float_field(f, t, "horizontal_radius_factor"@) {
                        Err(e) => Err(e),
                        Ok(horizontal_radius_factor) => match shape_number(f, t, "vertical_radius_default_factor"@) {
                            Err(e) => Err(e),
                            Ok(vertical_radius_default_factor) => match shape_number(f, t, "vertical_radius_center_factor"@) {
                                Err(e) => Err(e),
                                Ok(vertical_radius_center_factor) => match float_field(f, t, "y_scale"@) {
                                    Err(e) => Err(e),
                                    Ok(y_scale) => Ok(CanyonShape {
                                        distance_factor,
                                        thickness,
                                        width_smoothness: wrapped(n as int),
                                        horizontal_radius_factor,
                                        vertical_radius_default_factor,
                                        vertical_radius_center_factor,
                                        y_scale,
                                    }),
                                },
                            },
                        },
                    },
                },
            },
        },
    }
}

fn load_shape<F: Fn(Ask) -> u64>(f: &F, t: &Json) -> (r: Result<CanyonShape, LoadError>)
    requires
        answers(*f),
    ensures
        r == shape_in(*f, tree(*t)),
{
    let distance_factor = match read_float_field(f, t, "distance_factor") {
        Err(e) => return Err(e),
        Ok(p) => p,
    };
    let thickness = match read_float_field(f, t, "thickness") {
        Err(e) => return Err(e),
        Ok(p) => p,
    };
    let width_smoothness: i32 = match t.get("width_smoothness") {
        None => return Err(LoadError::MissingField),
        Some(v) => match v.as_integer() {
            None => return Err(LoadError::NotInteger),
            Some(n) => wrap(n as i128),
        },
    };
    let horizontal_radius_factor = match read_float_field(f, t, "horizontal_radius_factor") {
        Err(e) => return Err(e),
        Ok(p) => p,
    };
    let vertical_radius_default_factor: u32 = match read_shape_number(f, t, "vertical_radius_default_factor") {
        Err(e) => return Err(e),
        Ok(v) => v,
    };
    let vertical_radius_center_factor: u32 = match read_shape_number(f, t, "vertical_radius_center_factor") {
        Err(e) => return Err(e),
        Ok(v) => v,
    };
    let y_scale = match read_float_field(f, t, "y_scale") {
        Err(e) => return Err(e),
        Ok(p) => p,
    };
    Ok(CanyonShape {
        distance_factor,
        thickness,
        width_smoothness,
        horizontal_radius_factor,
        vertical_radius_default_factor,
        vertical_radius_center_factor,
        y_scale,
    })
}

/// A carver.
pub open spec fn carver_in<F: Fn(Ask) -> u64, A: Fn(&Json) -> Option<i32>>(f: F, a: A, t: Tree) -> Result<Carver, LoadError> {
    match kind_in(t) {
        None => Err(LoadError::MissingType),
        Some(k) => match shape_number(f, t, "probability"@) {
            Err(e) => Err(e),
            Ok(probability) => match t.get("y"@) {
                None => Err(LoadError::MissingField),
                Some(h) => match height_provider_in(a, h) {
                    Err(e) => Err(e),
                    Ok(y) => if k == "minecraft:cave"@ {
                        match cave_in(f, t, probability, y) {
                            Err(e) => Err(e),
                            Ok(c) => Ok(Carver::Cave(c)),
                        }
                    } else if k == "minecraft:canyon"@ {
                        match t.get("shape"@) {
                            None => Err(LoadError::MissingField),
                            Some(s) => match float_field(f, t, "vertical_rotation"@) {
                                Err(e) => Err(e),
                                Ok(vertical_rotation) => match shape_in(f, s) {
                                    Err(e) => Err(e),
                                    Ok(shape) => Ok(Carver::Canyon(CanyonCarver { probability, y, vertical_rotation, shape })),
                                },
                            },
                        }
                    } else {
                        Err(LoadError::Unsupported)
                    },
                },
            },
        },
    }
}

fn load_carver<F: Fn(Ask) -> u64, A: Fn(&Json) -> Option<i32>>(f: &F, a: &A, t: &Json) -> (r: Result<Carver, LoadError>)
    requires
        answers(*f),
        anchors(*a),
    ensures
        r == carver_in(*f, *a, tree(*t)),
{
    let kind = match read_kind(t) {
        None => return Err(LoadError::MissingType),
        Some(k) => k,
    };
    let k: &str = kind.as_str();
    let probability: u32 = match read_shape_number(f, t, "probability") {
        Err(e) => return Err(e),
        Ok(v) => v,
    };
    let y = match t.get("y") {
        None => return Err(LoadError::MissingField),
        Some(h) => match load_height_provider(a, h) {
            Err(e) => return Err(e),
            Ok(y) => y,
        },
    };
    if same_text(k, "minecraft:cave") {
        match load_cave(f, t, probability, y) {
            Err(e) => Err(e),
            Ok(c) => Ok(Carver::Cave(c)),
        }
    } else if same_text(k, "minecraft:canyon") {
        let s = match t.get("shape") {
            None => return Err(LoadError::MissingField),
            Some(s) => s,
        };
        let vertical_rotation = match read_float_field(f, t, "vertical_rotation") {
            Err(e) => return Err(e),
            Ok(p) => p,
        };
        match load_shape(f, s) {
            Err(e) => Err(e),
            Ok(shape) => Ok(Carver::Canyon(CanyonCarver { probability, y, vertical_rotation, shape })),
        }
    } else {
        Err(LoadError::Unsupported)
    }
}

/// The carvers read so far, by name.
pub ghost struct Known {
    pub names: Seq<Seq<char>>,
    pub carvers: Seq<Carver>,
}

/// The first place of a name among the first `n`.
pub open spec fn first_place(names: Seq<Seq<char>>, name: Seq<char>, n: nat) -> Option<int>
    decreases n,
{
    if n == 0 {
        None
    } else {
        match first_place(names, name, (n - 1) as nat) {
            Some(i) => Some(i),
            None => if names[n - 1] == name { Some(n - 1) } else { None },
        }
    }
}

pub proof fn lemma_first_place(names: Seq<String>, name: Seq<char>, n: nat)
    requires
        n <= names.len(),
    ensures
        first_place(texts(names), name, n) == find_name(names, name, n),
    decreases n,
{
    if n > 0 {
        lemma_first_place(names, name, (n - 1) as nat);
    }
}

/// The carver that a biome's list names: one that is known, or a new one.
pub open spec fn entry_read<F: Fn(Ask) -> u64, A: Fn(&Json) -> Option<i32>>(f: F, a: A, st: Reading, k: Known, t: Tree) -> Result<
    (Known, int),
    LoadError,
> {
    match t.as_text() {
        None => Err(LoadError::Unsupported),
        Some(s) => {
            let id = full_name(s);
            match first_place(k.names, id, k.names.len()) {
                Some(i) => Ok((k, i)),
                None => match st.doc("carver"@, full_name(id)) {
                    None => Err(LoadError::NotProvided),
                    Some(d) => match carver_in(f, a, d) {
                        Err(e) => Err(e),
                        Ok(c) => Ok(
                            (Known { names: k.names.push(id), carvers: k.carvers.push(c) }, k.carvers.len() as int),
                        ),
                    },
                },
            }
        },
    }
}

/// The carvers that the first `n` entries of a list name.
pub open spec fn entries_read<F: Fn(Ask) -> u64, A: Fn(&Json) -> Option<i32>>(
    f: F, a: A, st: Reading, k: Known, l: Seq<Tree>, n: nat,
) -> Result<(Known, Seq<int>), LoadError>
    decreases n,
{
    if n == 0 {
        Ok((k, Seq::empty()))
    } else {
        match entries_read(f, a, st, k, l, (n - 1) as nat) {
            Err(e) => Err(e),
            Ok((g, before)) => match entry_read(f, a, st, g, l[n - 1]) {
                Err(e) => Err(e),
                Ok((h, i)) => Ok((h, before.push(i))),
            },
        }
    }
}

/// A failure among the first entries fails the list.
proof fn lemma_entries_fail<F: Fn(Ask) -> u64, A: Fn(&Json) -> Option<i32>>(
    f: F, a: A, st: Reading, k: Known, l: Seq<Tree>, m: nat, n: nat,
)
    requires
        m <= n,
        entries_read(f, a, st, k, l, m) is Err,
    ensures
        entries_read(f, a, st, k, l, n) == entries_read(f, a, st, k, l, m),
    decreases n,
{
    if m < n {
        lemma_entries_fail(f, a, st, k, l, m, (n - 1) as nat);
    }
}

/// The list of a biome's carvers: none, one name, or a list.
pub open spec fn carver_list(t: Tree) -> Result<Seq<Tree>, LoadError> {
    match t.get("carvers"@) {
        None => Ok(Seq::empty()),
        Some(v) => match v {
            Tree::List(l) => Ok(l),
            Tree::Text(s) => Ok(seq![v]),
            _ => Err(LoadError::Unexpected),
        },
    }
}

/// The carvers of a biome.
pub open spec fn biome_read<F: Fn(Ask) -> u64, A: Fn(&Json) -> Option<i32>>(f: F, a: A, st: Reading, k: Known, id: Seq<char>) -> Result<
    (Known, Seq<int>),
    LoadError,
> {
    match st.doc("biome"@, full_name(id)) {
        None => Err(LoadError::NotProvided),
        Some(d) => match carver_list(d) {
            Err(e) => Err(e),
            Ok(l) => entries_read(f, a, st, k, l, l.len()),
        },
    }
}

/// The carvers of the first `n` biomes.
pub open spec fn biomes_read<F: Fn(Ask) -> u64, A: Fn(&Json) -> Option<i32>>(
    f: F, a: A, st: Reading, ids: Seq<Seq<char>>, n: nat,
) -> Result<(Known, Seq<Seq<int>>), LoadError>
    decreases n,
{
    if n == 0 {
        Ok((Known { names: Seq::empty(), carvers: Seq::empty() }, Seq::empty()))
    } else {
        match biomes_read(f, a, st, ids, (n - 1) as nat) {
            Err(e) => Err(e),
            Ok((k, before)) => match biome_read(f, a, st, k, ids[n - 1]) {
                Err(e) => Err(e),
                Ok((h, l)) => Ok((h, before.push(l))),
            },
        }
    }
}

proof fn lemma_biomes_fail<F: Fn(Ask) -> u64, A: Fn(&Json) -> Option<i32>>(f: F, a: A, st: Reading, ids: Seq<Seq<char>>, m: nat, n: nat)
    requires
        m <= n,
        biomes_read(f, a, st, ids, m) is Err,
    ensures
        biomes_read(f, a, st, ids, n) == biomes_read(f, a, st, ids, m),
    decreases n,
{
    if m < n {
        lemma_biomes_fail(f, a, st, ids, m, (n - 1) as nat);
    }
}

/// The block of a palette entry, `{"id": .., "properties": ..}`.
pub open spec fn block_name(entry: Seq<char>) -> Option<Seq<char>> {
    match tree_in(entry) {
        None => None,
        Some(t) => match text_in(t, "id"@) {
            None => None,
            Some(s) => Some(full_name(s)),
        },
    }
}

pub(crate) fn block_of(entry: &str) -> (r: Option<String>)
    ensures
        r is Some <==> block_name(entry@) is Some,
        r matches Some(b) ==> block_name(entry@) == Some(b@),
{
    match Json::parse(entry) {
        None => None,
        Some(t) => match get_text(&t, "id") {
            None => None,
            Some(s) => Some(full_id(s)),
        },
    }
}

/// The full names of the texts among the first `n`.
pub open spec fn texts_among(l: Seq<Tree>, n: nat) -> Seq<Seq<char>>
    decreases n,
{
    if n == 0 {
        Seq::empty()
    } else {
        match l[n - 1].as_text() {
            None => texts_among(l, (n - 1) as nat),
            Some(s) => texts_among(l, (n - 1) as nat).push(full_name(s)),
        }
    }
}

/// The blocks that are never carved: the tag that comes with the block
/// index; without an index, bedrock.
pub open spec fn uncarvable_in(st: Reading) -> Seq<Seq<char>> {
    match st.doc("block_index"@, full_name("minecraft:overworld"@)) {
        None => seq!["minecraft:bedrock"@],
        Some(t) => match t.get("tags"@) {
            None => Seq::empty(),
            Some(tags) => match list_in(tags, "minecraft:uncarvable"@) {
                None => Seq::empty(),
                Some(l) => texts_among(l, l.len()),
            },
        },
    }
}

fn read_uncarvable(loader: &Loader) -> (r: Vec<String>)
    ensures
        texts(r@) == uncarvable_in(loader@),
{
    let mut out: Vec<String> = Vec::new();
    let doc = match loader.document("block_index", "minecraft:overworld") {
        Err(_) => {
            out.push(full_id("minecraft:bedrock"));
            proof {
                lemma_bedrock();
                assert(texts(out@) =~= uncarvable_in(loader@));
            }
            return out;
        },
        Ok(d) => d,
    };
    proof { assert(texts(out@) =~= Seq::empty()); }
    let tags = match doc.get("tags") {
        None => return out,
        Some(t) => t,
    };
    let l = match tags.get("minecraft:uncarvable") {
        None => return out,
        Some(v) => match v.as_array() {
            None => return out,
            Some(l) => l,
        },
    };
    let ghost ts = trees(l@, l@.len());
    proof { lemma_trees(l@, l@.len()); }
    let mut i: usize = 0;
    while i < l.len()
        invariant
            i <= l@.len(),
            ts == trees(l@, l@.len()),
            ts.len() == l@.len(),
            forall|k: int| 0 <= k < l@.len() ==> #[trigger] ts[k] == tree(l@[k]),
            texts(out@) == texts_among(ts, i as nat),
        decreases l.len() - i,
    {
        let ghost before = out@;
        proof { assert(ts[i as int] == tree(l@[i as int])); }
        if let Some(s) = l[i].as_str() {
            out.push(full_id(s));
            proof { assert(texts(out@) =~= texts(before).push(full_name(s@))); }
        }
        i += 1;
    }
    out
}

/// A name with a namespace is full.
proof fn lemma_bedrock()
    ensures
        full_name("minecraft:bedrock"@) == "minecraft:bedrock"@,
{
    reveal_strlit("minecraft:bedrock");
    assert("minecraft:bedrock"@[9] == ':');
    assert("minecraft:bedrock"@.contains(':'));
}

/// What a palette says of its first `n` blocks.
pub open spec fn palette_fits(palette: Seq<Seq<char>>, never: Seq<Seq<char>>, s: CarverStage, n: int) -> bool {
    &&& s.uncarvable@.len() == n && s.grass@.len() == n && s.dirt@.len() == n
    &&& forall|i: int| 0 <= i < n ==> (#[trigger] block_name(palette[i]) matches Some(b) && {
        &&& s.uncarvable@[i] == never.contains(b)
        &&& s.grass@[i] == (b == "minecraft:grass_block"@ || b == "minecraft:mycelium"@)
        &&& s.dirt@[i] == (b == "minecraft:dirt"@)
    })
}

/// A name is among some.
fn is_among(names: &Vec<String>, name: &str) -> (r: bool)
    ensures
        r == texts(names@).contains(name@),
{
    let mut i: usize = 0;
    while i < names.len()
        invariant
            i <= names@.len(),
            forall|k: int| 0 <= k < i ==> #[trigger] texts(names@)[k] != name@,
        decreases names.len() - i,
    {
        if same_text(names[i].as_str(), name) {
            proof { assert(texts(names@)[i as int] == name@); }
            return true;
        }
        i += 1;
    }
    proof { assert(texts(names@).len() == names@.len()); }
    false
}

/// Carver indices as numbers.
pub open spec fn numbers(l: Seq<usize>) -> Seq<int> {
    l.map_values(|i: usize| i as int)
}

impl Known {
    /// What the library holds of it.
    pub open spec fn held(self, names: Seq<String>, carvers: Seq<Carver>) -> bool {
        &&& self.names == texts(names)
        &&& self.carvers == carvers
        &&& names.len() == carvers.len()
    }
}

impl CarverStage {
    fn load_entry<F: Fn(Ask) -> u64, A: Fn(&Json) -> Option<i32>>(
        loader: &Loader, names: &mut Vec<String>, carvers: &mut Vec<Carver>, entry: &Json, a: &A, f: &F, Ghost(k): Ghost<Known>,
    ) -> (r: Result<usize, LoadError>)
        requires
            answers(*f),
            anchors(*a),
            k.held(old(names)@, old(carvers)@),
        ensures
            match (r, entry_read(*f, *a, loader@, k, tree(*entry))) {
                (Ok(i), Ok((h, j))) => i == j && h.held(final(names)@, final(carvers)@) && i < final(carvers)@.len()
                    && final(carvers)@.len() >= old(carvers)@.len(),
                (Err(e), Err(g)) => e == g,
                _ => false,
            },
    {
        let id = match entry.as_str() {
            None => return Err(LoadError::Unsupported),
            Some(s) => full_id(s),
        };
        proof { lemma_first_place(names@, id@, names@.len()); }
        if let Some(i) = position_of(names, id.as_str()) {
            return Ok(i);
        }
        let doc = match loader.document("carver", id.as_str()) {
            Err(e) => return Err(e),
            Ok(d) => d,
        };
        let carver = match load_carver(f, a, &doc) {
            Err(e) => return Err(e),
            Ok(c) => c,
        };
        let ghost before = names@;
        carvers.push(carver);
        names.push(id);
        proof { assert(texts(names@) =~= texts(before).push(id@)); }
        Ok(carvers.len() - 1)
    }

    fn load_entries<F: Fn(Ask) -> u64, A: Fn(&Json) -> Option<i32>>(
        loader: &Loader, names: &mut Vec<String>, carvers: &mut Vec<Carver>, l: &Vec<Json>, a: &A, f: &F, Ghost(k): Ghost<Known>,
    ) -> (r: Result<Vec<usize>, LoadError>)
        requires
            answers(*f),
            anchors(*a),
            k.held(old(names)@, old(carvers)@),
        ensures
            match (r, entries_read(*f, *a, loader@, k, trees(l@, l@.len()), l@.len())) {
                (Ok(v), Ok((h, j))) => numbers(v@) == j && h.held(final(names)@, final(carvers)@),
                (Err(e), Err(g)) => e == g,
                _ => false,
            },
    {
        let ghost ts = trees(l@, l@.len());
        proof { lemma_trees(l@, l@.len()); }
        let mut out: Vec<usize> = Vec::new();
        let mut i: usize = 0;
        proof { assert(numbers(out@) =~= Seq::empty()); }
        let ghost mut known = k;
        while i < l.len()
            invariant
                i <= l@.len(),
                answers(*f),
                anchors(*a),
                ts == trees(l@, l@.len()),
                ts.len() == l@.len(),
                forall|k: int| 0 <= k < l@.len() ==> #[trigger] ts[k] == tree(l@[k]),
                known.held(names@, carvers@),
                entries_read(*f, *a, loader@, k, ts, i as nat) == Ok::<(Known, Seq<int>), LoadError>((known, numbers(out@))),
            decreases l.len() - i,
        {
            let ghost before = out@;
            let ghost g = known;
            proof { assert(ts[i as int] == tree(l@[i as int])); }
            match CarverStage::load_entry(loader, names, carvers, &l[i], a, f, Ghost(known)) {
                Err(e) => {
                    proof {
                        assert(entries_read(*f, *a, loader@, k, ts, (i + 1) as nat) == Err::<(Known, Seq<int>), LoadError>(e));
                        lemma_entries_fail(*f, *a, loader@, k, ts, (i + 1) as nat, ts.len());
                    }
                    return Err(e);
                },
                Ok(n) => {
                    out.push(n);
                    proof {
                        known = entry_read(*f, *a, loader@, g, ts[i as int])->Ok_0.0;
                        assert(numbers(out@) =~= numbers(before).push(n as int));
                    }
                },
            }
            i += 1;
        }
        Ok(out)
    }

    fn load_biome<F: Fn(Ask) -> u64, A: Fn(&Json) -> Option<i32>>(
        loader: &Loader, names: &mut Vec<String>, carvers: &mut Vec<Carver>, id: &str, a: &A, f: &F, Ghost(k): Ghost<Known>,
    ) -> (r: Result<Vec<usize>, LoadError>)
        requires
            answers(*f),
            anchors(*a),
            k.held(old(names)@, old(carvers)@),
        ensures
            match (r, biome_read(*f, *a, loader@, k, id@)) {
                (Ok(v), Ok((h, j))) => numbers(v@) == j && h.held(final(names)@, final(carvers)@),
                (Err(e), Err(g)) => e == g,
                _ => false,
            },
    {
        let doc = match loader.document("biome", id) {
            Err(e) => return Err(e),
            Ok(d) => d,
        };
        match doc.get("carvers") {
            None => {
                let none: Vec<usize> = Vec::new();
                proof { assert(numbers(none@) =~= Seq::empty()); }
                Ok(none)
            },
            Some(v) => match v {
                Json::List(l) => {
                    proof { lemma_trees(l@, l@.len()); }
                    CarverStage::load_entries(loader, names, carvers, l, a, f, Ghost(k))
                },
                Json::Text(_) => {
                    let mut one: Vec<Json> = Vec::new();
                    one.push(v.copy());
                    proof {
                        lemma_trees(one@, 1);
                        assert(trees(one@, 1) =~= seq![tree(*v)]);
                    }
                    CarverStage::load_entries(loader, names, carvers, &one, a, f, Ghost(k))
                },
                _ => Err(LoadError::Unexpected),
            },
        }
    }

    /// Read the carvers that the biomes name, and what the palette says of
    /// its blocks. `a` gives the height that an anchor names.
    pub fn load<F: Fn(Ask) -> u64, A: Fn(&Json) -> Option<i32>>(
        loader: &Loader, biome_ids: &Vec<String>, palette: &Vec<String>, seed: i64, min_y: i32, height: i32, a: &A, f: &F,
    ) -> (r: Result<CarverStage, LoadError>)
        requires
            answers(*f),
            anchors(*a),
        ensures
            match (r, biomes_read(*f, *a, loader@, texts(biome_ids@), biome_ids@.len())) {
                (Ok(s), Ok((k, lists))) => {
                    &&& s.carvers@ == k.carvers
                    &&& s.biome_carvers@.map_values(|l: Vec<usize>| numbers(l@)) == lists
                    &&& s.seed == seed && s.min_y == min_y && s.height == height
                    &&& palette_fits(texts(palette@), uncarvable_in(loader@), s, palette@.len() as int)
                },
                (Err(e), Err(g)) => e == g,
                (Err(e), Ok(_)) => e == LoadError::NotText && exists|i: int|
                    0 <= i < palette@.len() && #[trigger] block_name(texts(palette@)[i]) is None,
                _ => false,
            },
    {
        let mut names: Vec<String> = Vec::new();
        let mut carvers: Vec<Carver> = Vec::new();
        let mut lists: Vec<Vec<usize>> = Vec::new();
        let ghost ids = texts(biome_ids@);
        let ghost mut known = Known { names: Seq::empty(), carvers: Seq::empty() };
        let mut b: usize = 0;
        proof {
            assert(texts(names@) =~= Seq::empty());
            assert(lists@.map_values(|l: Vec<usize>| numbers(l@)) =~= Seq::empty());
        }
        while b < biome_ids.len()
            invariant
                b <= biome_ids@.len(),
                answers(*f),
                anchors(*a),
                ids == texts(biome_ids@),
                ids.len() == biome_ids@.len(),
                known.held(names@, carvers@),
                biomes_read(*f, *a, loader@, ids, b as nat) == Ok::<(Known, Seq<Seq<int>>), LoadError>(
                    (known, lists@.map_values(|l: Vec<usize>| numbers(l@)))),
            decreases biome_ids.len() - b,
        {
            let ghost before = lists@;
            let ghost g = known;
            match CarverStage::load_biome(loader, &mut names, &mut carvers, biome_ids[b].as_str(), a, f, Ghost(known)) {
                Err(e) => {
                    proof {
                        assert(biomes_read(*f, *a, loader@, ids, (b + 1) as nat) == Err::<(Known, Seq<Seq<int>>), LoadError>(e));
                        lemma_biomes_fail(*f, *a, loader@, ids, (b + 1) as nat, ids.len());
                    }
                    return Err(e);
                },
                Ok(l) => {
                    lists.push(l);
                    proof {
                        known = biome_read(*f, *a, loader@, g, ids[b as int])->Ok_0.0;
                        assert(lists@.map_values(|l: Vec<usize>| numbers(l@)) =~= before.map_values(
                            |l: Vec<usize>| numbers(l@)).push(numbers(l@)));
                    }
                },
            }
            b += 1;
        }
        let never: Vec<String> = read_uncarvable(loader);
        let mut s = CarverStage {
            carvers,
            biome_carvers: lists,
            seed,
            min_y,
            height,
            uncarvable: Vec::new(),
            grass: Vec::new(),
            dirt: Vec::new(),
        };
        let ghost start = s;
        let mut i: usize = 0;
        while i < palette.len()
            invariant
                i <= palette@.len(),
                s.carvers@ == start.carvers@,
                s.biome_carvers@ == start.biome_carvers@,
                s.seed == seed && s.min_y == min_y && s.height == height,
                texts(never@) == uncarvable_in(loader@),
                palette_fits(texts(palette@), uncarvable_in(loader@), s, i as int),
                biomes_read(*f, *a, loader@, ids, ids.len()) is Ok,
                ids == texts(biome_ids@),
                ids.len() == biome_ids@.len(),
            decreases palette.len() - i,
        {
            proof { assert(texts(palette@)[i as int] == palette@[i as int]@); }
            let block = match block_of(palette[i].as_str()) {
                None => return Err(LoadError::NotText),
                Some(n) => n,
            };
            let name: &str = block.as_str();
            s.uncarvable.push(is_among(&never, name));
            s.grass.push(same_text(name, "minecraft:grass_block") || same_text(name, "minecraft:mycelium"));
            s.dirt.push(same_text(name, "minecraft:dirt"));
            i += 1;
        }
        Ok(s)
    }
}

fn is_range(min: i32, max: i32) -> (r: bool)
    ensures
        r == (min <= max && max - min < i32::MAX),
{
    min <= max && (max as i64) - (min as i64) < i32::MAX as i64
}

fn can_draw(p: &IntProvider) -> (r: bool)
    ensures
        r == p.wf(),
{
    match p {
        IntProvider::Constant(_) => true,
        IntProvider::Uniform { min, max } => is_range(*min, *max),
        IntProvider::BiasedToBottom { min, max } => is_range(*min, *max),
        IntProvider::VeryBiasedToBottom { min, max } => is_range(*min, *max),
    }
}

fn can_draw_height(p: &HeightProvider) -> (r: bool)
    ensures
        r == p.wf(),
{
    match p {
        HeightProvider::Constant(_) => true,
        HeightProvider::Uniform { min, max } => is_between(*min, *max),
        HeightProvider::Trapezoid { min, max, plateau } => is_slope(*min, *max, *plateau),
        HeightProvider::BiasedToBottom { min, max, inner } => is_sink(*min, *max, *inner),
        HeightProvider::VeryBiasedToBottom { min, max, inner } => is_deep_sink(*min, *max, *inner),
    }
}

fn can_carve(c: &Carver) -> (r: bool)
    ensures
        r == c.wf(),
{
    match c {
        Carver::Cave(c) => can_draw_height(&c.y) && can_draw(&c.count),
        Carver::Canyon(c) => can_draw_height(&c.y) && c.shape.width_smoothness > 0,
    }
}

impl CarverStage {
    /// Whether every carver can run: numbers are drawn from ranges that are
    /// not empty, biomes name carvers that are there, and the world is high
    /// enough for a mask.
    pub fn is_sound(&self) -> (r: bool)
        ensures
            r == self.wf(),
    {
        if self.height < 8 || self.min_y as i64 + self.height as i64 > i32::MAX as i64 || (self.height - 8) as u64
            > usize::MAX as u64 / 256 {
            return false;
        }
        let mut i: usize = 0;
        while i < self.carvers.len()
            invariant
                i <= self.carvers@.len(),
                forall|k: int| 0 <= k < i ==> (#[trigger] self.carvers@[k]).wf(),
            decreases self.carvers.len() - i,
        {
            if !can_carve(&self.carvers[i]) {
                proof { assert(!self.carvers@[i as int].wf()); }
                return false;
            }
            i += 1;
        }
        let mut b: usize = 0;
        while b < self.biome_carvers.len()
            invariant
                b <= self.biome_carvers@.len(),
                self.height >= 8,
                self.min_y + self.height <= i32::MAX,
                (self.height - 8) * 256 <= usize::MAX,
                forall|k: int| 0 <= k < self.carvers@.len() ==> (#[trigger] self.carvers@[k]).wf(),
                forall|c: int, k: int|
                    0 <= c < b && 0 <= k < self.biome_carvers@[c]@.len() ==> #[trigger] self.biome_carvers@[c]@[k]
                        < self.carvers@.len(),
            decreases self.biome_carvers.len() - b,
        {
            let l: &Vec<usize> = &self.biome_carvers[b];
            let mut k: usize = 0;
            while k < l.len()
                invariant
                    k <= l@.len(),
                    b < self.biome_carvers@.len(),
                    *l == self.biome_carvers@[b as int],
                    forall|j: int| 0 <= j < k ==> #[trigger] self.biome_carvers@[b as int]@[j] < self.carvers@.len(),
                decreases l.len() - k,
            {
                if l[k] >= self.carvers.len() {
                    proof { assert(!(self.biome_carvers@[b as int]@[k as int] < self.carvers@.len())); }
                    return false;
                }
                k += 1;
            }
            b += 1;
        }
        true
    }
}

} // verus!
