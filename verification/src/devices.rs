//! Concrete device kinds and their state text.
//!
//! Readings are fixed-point integers: voltage, current and
//! temperature are held in tenths of their unit, so a socket made
//! with `Socket::new(2200, 0)` sits at 220.0 V and 0.0 A. The
//! derived power of a socket is therefore held in hundredths of a
//! watt.

use vstd::prelude::*;

use crate::house::ReportState;
use crate::text::{
    hundredths_str, hundredths_to_string, lemma_hundredths_str_newline_free,
    lemma_newline_free_concat, lemma_tenths_str_newline_free, newline_free, tenths_str,
    tenths_to_string,
};

verus! {

/// A switchable socket with a voltage and a current reading, both in
/// tenths of their unit.
#[derive(Debug)]
pub struct Socket {
    voltage: i32,
    current: i32,
    on: bool,
}

/// A thermometer with a temperature reading in tenths of a degree.
#[derive(Debug)]
pub struct Thermometer {
    temperature: i32,
}

/// The state text of a socket with the given readings.
pub open spec fn socket_state_text(voltage: int, current: int, on: bool) -> Seq<char> {
    "Socket is "@ + (if on {
        "on"@
    } else {
        "off"@
    }) + ", power: "@ + hundredths_str(voltage * current) + " W"@
}

/// The state text of a thermometer with the given reading.
pub open spec fn thermometer_state_text(temperature: int) -> Seq<char> {
    "Temperature: "@ + tenths_str(temperature)
}

/// A socket's state text holds no line break, so it fills exactly
/// one report line.
pub proof fn lemma_socket_state_newline_free(voltage: int, current: int, on: bool)
    ensures
        newline_free(socket_state_text(voltage, current, on)),
{
    reveal_strlit("Socket is ");
    reveal_strlit("on");
    reveal_strlit("off");
    reveal_strlit(", power: ");
    reveal_strlit(" W");
    let flag: Seq<char> = if on {
        "on"@
    } else {
        "off"@
    };
    assert(newline_free("Socket is "@));
    assert(newline_free(flag));
    assert(newline_free(", power: "@));
    assert(newline_free(" W"@));
    lemma_hundredths_str_newline_free(voltage * current);
    lemma_newline_free_concat("Socket is "@, flag);
    lemma_newline_free_concat("Socket is "@ + flag, ", power: "@);
    lemma_newline_free_concat(
        "Socket is "@ + flag + ", power: "@,
        hundredths_str(voltage * current),
    );
    lemma_newline_free_concat(
        "Socket is "@ + flag + ", power: "@ + hundredths_str(voltage * current),
        " W"@,
    );
}

/// A thermometer's state text holds no line break, so it fills
/// exactly one report line.
pub proof fn lemma_thermometer_state_newline_free(temperature: int)
    ensures
        newline_free(thermometer_state_text(temperature)),
{
    reveal_strlit("Temperature: ");
    assert(newline_free("Temperature: "@));
    lemma_tenths_str_newline_free(temperature);
    lemma_newline_free_concat("Temperature: "@, tenths_str(temperature));
}

impl Socket {
    /// The voltage reading, in tenths of a volt.
    pub closed spec fn spec_voltage(&self) -> int {
        self.voltage as int
    }

    /// The current reading, in tenths of an ampere.
    pub closed spec fn spec_current(&self) -> int {
        self.current as int
    }

    /// Whether the socket is switched on.
    pub closed spec fn spec_on(&self) -> bool {
        self.on
    }

    /// A new socket with the given readings, switched off.
    pub fn new(voltage: i32, current: i32) -> (s: Socket)
        ensures
            s.spec_voltage() == voltage as int,
            s.spec_current() == current as int,
            !s.spec_on(),
    {
        Socket { voltage, current, on: false }
    }

    pub fn set_voltage(&mut self, voltage: i32)
        ensures
            final(self).spec_voltage() == voltage as int,
            final(self).spec_current() == old(self).spec_current(),
            final(self).spec_on() == old(self).spec_on(),
    {
        self.voltage = voltage;
    }

    pub fn set_current(&mut self, current: i32)
        ensures
            final(self).spec_voltage() == old(self).spec_voltage(),
            final(self).spec_current() == current as int,
            final(self).spec_on() == old(self).spec_on(),
    {
        self.current = current;
    }

    /// The instantaneous power, in hundredths of a watt: the product
    /// of the two tenths-valued readings.
    pub fn get_current_power(&self) -> (p: i64)
        ensures
            p == self.spec_voltage() * self.spec_current(),
            i64::MIN < p,
    {
        proof {
            assert(i64::MIN < (self.voltage as int) * (self.current as int)
                <= i64::MAX) by (nonlinear_arith)
                requires
                    i32::MIN <= self.voltage <= i32::MAX,
                    i32::MIN <= self.current <= i32::MAX,
            ;
        }
        (self.voltage as i64) * (self.current as i64)
    }

    pub fn is_on(&self) -> (r: bool)
        ensures
            r == self.spec_on(),
    {
        self.on
    }

    pub fn switch(&mut self, on: bool)
        ensures
            final(self).spec_voltage() == old(self).spec_voltage(),
            final(self).spec_current() == old(self).spec_current(),
            final(self).spec_on() == on,
    {
        self.on = on;
    }
}

impl Thermometer {
    /// The temperature reading, in tenths of a degree.
    pub closed spec fn spec_temperature(&self) -> int {
        self.temperature as int
    }

    /// A new thermometer with the given reading.
    pub fn new(temperature: i32) -> (t: Thermometer)
        ensures
            t.spec_temperature() == temperature as int,
    {
        Thermometer { temperature }
    }

    pub fn set_temperature(&mut self, temperature: i32)
        ensures
            final(self).spec_temperature() == temperature as int,
    {
        self.temperature = temperature;
    }

    pub fn get_temperature(&self) -> (t: i32)
        ensures
            t as int == self.spec_temperature(),
    {
        self.temperature
    }
}

impl ReportState for Socket {
    open spec fn spec_state(&self) -> Seq<char> {
        socket_state_text(self.spec_voltage(), self.spec_current(), self.spec_on())
    }

    fn report_state(&self) -> (r: String) {
        let p = self.get_current_power();
        let mut s = "Socket is ".to_owned();
        if self.is_on() {
            s.append("on");
        } else {
            s.append("off");
        }
        s.append(", power: ");
        let power = hundredths_to_string(p);
        s.append(power.as_str());
        s.append(" W");
        proof {
            assert(s@ =~= self.spec_state());
        }
        s
    }
}

impl ReportState for Thermometer {
    open spec fn spec_state(&self) -> Seq<char> {
        thermometer_state_text(self.spec_temperature())
    }

    fn report_state(&self) -> (r: String) {
        let mut s = "Temperature: ".to_owned();
        let reading = tenths_to_string(self.get_temperature());
        s.append(reading.as_str());
        proof {
            assert(s@ =~= self.spec_state());
        }
        s
    }
}

} // verus!
