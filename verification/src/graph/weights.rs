//! `Weight` for the primitive integers: each stands for itself.

use vstd::prelude::*;
use super::Weight;

verus! {

impl Weight for u8 {
    open spec fn value(self) -> int {
        self as int
    }

    open spec fn spec_min_value() -> Self {
        u8::MIN
    }

    proof fn lemma_value_order(a: Self, b: Self) {
    }

    proof fn lemma_min_rank(self) {
    }

    proof fn lemma_zero_below_max() {
    }

    fn zero() -> (z: Self) {
        0
    }

    fn min_value() -> (m: Self) {
        u8::MIN
    }

    fn checked_sum(&self, r: &Self) -> (s: Option<Self>) {
        self.checked_add(*r)
    }
}

impl Weight for u16 {
    open spec fn value(self) -> int {
        self as int
    }

    open spec fn spec_min_value() -> Self {
        u16::MIN
    }

    proof fn lemma_value_order(a: Self, b: Self) {
    }

    proof fn lemma_min_rank(self) {
    }

    proof fn lemma_zero_below_max() {
    }

    fn zero() -> (z: Self) {
        0
    }

    fn min_value() -> (m: Self) {
        u16::MIN
    }

    fn checked_sum(&self, r: &Self) -> (s: Option<Self>) {
        self.checked_add(*r)
    }
}

impl Weight for u32 {
    open spec fn value(self) -> int {
        self as int
    }

    open spec fn spec_min_value() -> Self {
        u32::MIN
    }

    proof fn lemma_value_order(a: Self, b: Self) {
    }

    proof fn lemma_min_rank(self) {
    }

    proof fn lemma_zero_below_max() {
    }

    fn zero() -> (z: Self) {
        0
    }

    fn min_value() -> (m: Self) {
        u32::MIN
    }

    fn checked_sum(&self, r: &Self) -> (s: Option<Self>) {
        self.checked_add(*r)
    }
}

impl Weight for u64 {
    open spec fn value(self) -> int {
        self as int
    }

    open spec fn spec_min_value() -> Self {
        u64::MIN
    }

    proof fn lemma_value_order(a: Self, b: Self) {
    }

    proof fn lemma_min_rank(self) {
    }

    proof fn lemma_zero_below_max() {
    }

    fn zero() -> (z: Self) {
        0
    }

    fn min_value() -> (m: Self) {
        u64::MIN
    }

    fn checked_sum(&self, r: &Self) -> (s: Option<Self>) {
        self.checked_add(*r)
    }
}

impl Weight for u128 {
    open spec fn value(self) -> int {
        self as int
    }

    open spec fn spec_min_value() -> Self {
        u128::MIN
    }

    proof fn lemma_value_order(a: Self, b: Self) {
    }

    proof fn lemma_min_rank(self) {
    }

    proof fn lemma_zero_below_max() {
    }

    fn zero() -> (z: Self) {
        0
    }

    fn min_value() -> (m: Self) {
        u128::MIN
    }

    fn checked_sum(&self, r: &Self) -> (s: Option<Self>) {
        self.checked_add(*r)
    }
}

impl Weight for usize {
    open spec fn value(self) -> int {
        self as int
    }

    open spec fn spec_min_value() -> Self {
        usize::MIN
    }

    proof fn lemma_value_order(a: Self, b: Self) {
    }

    proof fn lemma_min_rank(self) {
    }

    proof fn lemma_zero_below_max() {
    }

    fn zero() -> (z: Self) {
        0
    }

    fn min_value() -> (m: Self) {
        usize::MIN
    }

    fn checked_sum(&self, r: &Self) -> (s: Option<Self>) {
        self.checked_add(*r)
    }
}

impl Weight for i8 {
    open spec fn value(self) -> int {
        self as int
    }

    open spec fn spec_min_value() -> Self {
        i8::MIN
    }

    proof fn lemma_value_order(a: Self, b: Self) {
    }

    proof fn lemma_min_rank(self) {
    }

    proof fn lemma_zero_below_max() {
    }

    fn zero() -> (z: Self) {
        0
    }

    fn min_value() -> (m: Self) {
        i8::MIN
    }

    fn checked_sum(&self, r: &Self) -> (s: Option<Self>) {
        self.checked_add(*r)
    }
}

impl Weight for i16 {
    open spec fn value(self) -> int {
        self as int
    }

    open spec fn spec_min_value() -> Self {
        i16::MIN
    }

    proof fn lemma_value_order(a: Self, b: Self) {
    }

    proof fn lemma_min_rank(self) {
    }

    proof fn lemma_zero_below_max() {
    }

    fn zero() -> (z: Self) {
        0
    }

    fn min_value() -> (m: Self) {
        i16::MIN
    }

    fn checked_sum(&self, r: &Self) -> (s: Option<Self>) {
        self.checked_add(*r)
    }
}

impl Weight for i32 {
    open spec fn value(self) -> int {
        self as int
    }

    open spec fn spec_min_value() -> Self {
        i32::MIN
    }

    proof fn lemma_value_order(a: Self, b: Self) {
    }

    proof fn lemma_min_rank(self) {
    }

    proof fn lemma_zero_below_max() {
    }

    fn zero() -> (z: Self) {
        0
    }

    fn min_value() -> (m: Self) {
        i32::MIN
    }

    fn checked_sum(&self, r: &Self) -> (s: Option<Self>) {
        self.checked_add(*r)
    }
}

impl Weight for i64 {
    open spec fn value(self) -> int {
        self as int
    }

    open spec fn spec_min_value() -> Self {
        i64::MIN
    }

    proof fn lemma_value_order(a: Self, b: Self) {
    }

    proof fn lemma_min_rank(self) {
    }

    proof fn lemma_zero_below_max() {
    }

    fn zero() -> (z: Self) {
        0
    }

    fn min_value() -> (m: Self) {
        i64::MIN
    }

    fn checked_sum(&self, r: &Self) -> (s: Option<Self>) {
        self.checked_add(*r)
    }
}

impl Weight for i128 {
    open spec fn value(self) -> int {
        self as int
    }

    open spec fn spec_min_value() -> Self {
        i128::MIN
    }

    proof fn lemma_value_order(a: Self, b: Self) {
    }

    proof fn lemma_min_rank(self) {
    }

    proof fn lemma_zero_below_max() {
    }

    fn zero() -> (z: Self) {
        0
    }

    fn min_value() -> (m: Self) {
        i128::MIN
    }

    fn checked_sum(&self, r: &Self) -> (s: Option<Self>) {
        self.checked_add(*r)
    }
}

impl Weight for isize {
    open spec fn value(self) -> int {
        self as int
    }

    open spec fn spec_min_value() -> Self {
        isize::MIN
    }

    proof fn lemma_value_order(a: Self, b: Self) {
    }

    proof fn lemma_min_rank(self) {
    }

    proof fn lemma_zero_below_max() {
    }

    fn zero() -> (z: Self) {
        0
    }

    fn min_value() -> (m: Self) {
        isize::MIN
    }

    fn checked_sum(&self, r: &Self) -> (s: Option<Self>) {
        self.checked_add(*r)
    }
}

} // verus!
